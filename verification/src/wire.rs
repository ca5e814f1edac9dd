//! The bytes in which page versions and segment sizes are stored.
//!
//! An integer has a fixed width and its most significant byte first. A list has its
//! length, in eight bytes, in front. An optional value has a byte in front that is
//! one where the value is there, and zero where it is not.
use vstd::arithmetic::power::pow;
use vstd::prelude::*;

verus! {

/// A log record as a tuple.
pub type PlainRecordView = (u64, bool, Seq<u8>, u32);

/// A page version with its key as a tuple.
pub type PlainPageView = ((u32, u64), (Option<Seq<u8>>, Option<PlainRecordView>));

/// `n` in `width` bytes.
pub open spec fn int_bytes(n: nat, width: nat) -> Seq<u8>
    decreases width,
{
    if width == 0 {
        Seq::empty()
    } else {
        int_bytes(n / 256, (width - 1) as nat).push((n % 256) as u8)
    }
}

/// The bytes of a truth value.
pub open spec fn bool_bytes(b: bool) -> Seq<u8> {
    seq![if b { 1u8 } else { 0u8 }]
}

/// The bytes of a list of bytes.
pub open spec fn blob_bytes(data: Seq<u8>) -> Seq<u8> {
    int_bytes(data.len(), 8) + data
}

/// The bytes of a page image.
pub open spec fn image_bytes(image: Option<Seq<u8>>) -> Seq<u8> {
    match image {
        Some(data) => seq![1u8] + blob_bytes(data),
        None => seq![0u8],
    }
}

/// The bytes of a log record.
pub open spec fn record_bytes(record: Option<PlainRecordView>) -> Seq<u8> {
    match record {
        Some((lsn, will_init, rec, main_data_offset)) => seq![1u8] + int_bytes(lsn as nat, 8)
            + bool_bytes(will_init) + blob_bytes(rec) + int_bytes(main_data_offset as nat, 4),
        None => seq![0u8],
    }
}

/// The bytes of a page version.
pub open spec fn page_bytes(page: PlainPageView) -> Seq<u8> {
    int_bytes(page.0.0 as nat, 4) + int_bytes(page.0.1 as nat, 8) + image_bytes(page.1.0)
        + record_bytes(page.1.1)
}

/// The bytes of page versions one after the other.
pub open spec fn pages_bytes(list: Seq<PlainPageView>) -> Seq<u8>
    decreases list.len(),
{
    if list.len() == 0 {
        Seq::empty()
    } else {
        page_bytes(list[0]) + pages_bytes(list.drop_first())
    }
}

/// The bytes of a list of page versions.
pub open spec fn page_list_bytes(list: Seq<PlainPageView>) -> Seq<u8> {
    int_bytes(list.len(), 8) + pages_bytes(list)
}

/// The bytes of a segment size.
pub open spec fn size_bytes(size: (u64, u32)) -> Seq<u8> {
    int_bytes(size.0 as nat, 8) + int_bytes(size.1 as nat, 4)
}

/// The bytes of segment sizes one after the other.
pub open spec fn sizes_bytes(list: Seq<(u64, u32)>) -> Seq<u8>
    decreases list.len(),
{
    if list.len() == 0 {
        Seq::empty()
    } else {
        size_bytes(list[0]) + sizes_bytes(list.drop_first())
    }
}

/// The bytes of a list of segment sizes.
pub open spec fn size_list_bytes(list: Seq<(u64, u32)>) -> Seq<u8> {
    int_bytes(list.len(), 8) + sizes_bytes(list)
}

/// Whether the lengths in a page version can be written down.
pub open spec fn page_fits(page: PlainPageView) -> bool {
    &&& page.1.0 is Some ==> page.1.0->0.len() <= u64::MAX
    &&& page.1.1 is Some ==> (page.1.1->0).2.len() <= u64::MAX
}

/// Whether `bytes` are those of a list of page versions whose lengths can be written
/// down.
pub open spec fn encodes_pages(bytes: Seq<u8>, list: Seq<PlainPageView>) -> bool {
    &&& list.len() <= u64::MAX
    &&& forall|i: int| 0 <= i < list.len() ==> page_fits(#[trigger] list[i])
    &&& bytes == page_list_bytes(list)
}

/// Whether `bytes` are those of a list of segment sizes whose length can be written
/// down.
pub open spec fn encodes_sizes(bytes: Seq<u8>, list: Seq<(u64, u32)>) -> bool {
    &&& list.len() <= u64::MAX
    &&& bytes == size_list_bytes(list)
}

/// Equal sequences whose fronts are equally long have the same front and rest.
proof fn lemma_split(a: Seq<u8>, ra: Seq<u8>, b: Seq<u8>, rb: Seq<u8>)
    requires
        a + ra == b + rb,
        a.len() == b.len(),
    ensures
        a == b,
        ra == rb,
{
    assert(a =~= (a + ra).take(a.len() as int));
    assert(b =~= (b + rb).take(b.len() as int));
    assert(ra =~= (a + ra).skip(a.len() as int));
    assert(rb =~= (b + rb).skip(b.len() as int));
}

proof fn lemma_int_len(n: nat, width: nat)
    ensures
        int_bytes(n, width).len() == width,
    decreases width,
{
    if width > 0 {
        lemma_int_len(n / 256, (width - 1) as nat);
    }
}

/// No two numbers that fit have the same bytes.
proof fn lemma_int_injective(a: nat, b: nat, width: nat)
    requires
        a < pow(256, width),
        b < pow(256, width),
        int_bytes(a, width) == int_bytes(b, width),
    ensures
        a == b,
    decreases width,
{
    reveal(pow);
    if width > 0 {
        let less = pow(256, (width - 1) as nat);
        let sa = int_bytes(a, width);
        let sb = int_bytes(b, width);
        assert(sa.drop_last() =~= int_bytes(a / 256, (width - 1) as nat));
        assert(sb.drop_last() =~= int_bytes(b / 256, (width - 1) as nat));
        assert(sa.last() == (a % 256) as u8);
        assert(sb.last() == (b % 256) as u8);
        lemma_int_injective(a / 256, b / 256, (width - 1) as nat);
    }
}

/// A number of eight bytes is told from what follows.
proof fn lemma_long_first(a: nat, ra: Seq<u8>, b: nat, rb: Seq<u8>)
    requires
        a <= u64::MAX,
        b <= u64::MAX,
        int_bytes(a, 8) + ra == int_bytes(b, 8) + rb,
    ensures
        a == b,
        ra == rb,
{
    assert(pow(256, 8) == 0x1_0000_0000_0000_0000) by {
        reveal_with_fuel(pow, 9);
    }
    lemma_int_len(a, 8);
    lemma_int_len(b, 8);
    lemma_split(int_bytes(a, 8), ra, int_bytes(b, 8), rb);
    lemma_int_injective(a, b, 8);
}

/// A number of four bytes is told from what follows.
proof fn lemma_short_first(a: nat, ra: Seq<u8>, b: nat, rb: Seq<u8>)
    requires
        a <= u32::MAX,
        b <= u32::MAX,
        int_bytes(a, 4) + ra == int_bytes(b, 4) + rb,
    ensures
        a == b,
        ra == rb,
{
    assert(pow(256, 4) == 0x1_0000_0000) by {
        reveal_with_fuel(pow, 5);
    }
    lemma_int_len(a, 4);
    lemma_int_len(b, 4);
    lemma_split(int_bytes(a, 4), ra, int_bytes(b, 4), rb);
    lemma_int_injective(a, b, 4);
}

/// A list of bytes is told from what follows.
proof fn lemma_blob_first(a: Seq<u8>, ra: Seq<u8>, b: Seq<u8>, rb: Seq<u8>)
    requires
        a.len() <= u64::MAX,
        b.len() <= u64::MAX,
        blob_bytes(a) + ra == blob_bytes(b) + rb,
    ensures
        a == b,
        ra == rb,
{
    assert(blob_bytes(a) + ra =~= int_bytes(a.len(), 8) + (a + ra));
    assert(blob_bytes(b) + rb =~= int_bytes(b.len(), 8) + (b + rb));
    lemma_long_first(a.len(), a + ra, b.len(), b + rb);
    lemma_split(a, ra, b, rb);
}

/// A page image is told from what follows.
proof fn lemma_image_first(a: Option<Seq<u8>>, ra: Seq<u8>, b: Option<Seq<u8>>, rb: Seq<u8>)
    requires
        a is Some ==> a->0.len() <= u64::MAX,
        b is Some ==> b->0.len() <= u64::MAX,
        image_bytes(a) + ra == image_bytes(b) + rb,
    ensures
        a == b,
        ra == rb,
{
    assert((image_bytes(a) + ra)[0] == image_bytes(a)[0]);
    assert((image_bytes(b) + rb)[0] == image_bytes(b)[0]);
    match (a, b) {
        (Some(x), Some(y)) => {
            assert(image_bytes(a) + ra =~= seq![1u8] + (blob_bytes(x) + ra));
            assert(image_bytes(b) + rb =~= seq![1u8] + (blob_bytes(y) + rb));
            lemma_split(seq![1u8], blob_bytes(x) + ra, seq![1u8], blob_bytes(y) + rb);
            lemma_blob_first(x, ra, y, rb);
        },
        (None, None) => {
            lemma_split(seq![0u8], ra, seq![0u8], rb);
        },
        _ => {},
    }
}

/// The bytes of a log record before `rest`, from the front on.
proof fn lemma_record_parts(record: PlainRecordView, rest: Seq<u8>)
    ensures
        record_bytes(Some(record)) + rest == seq![1u8] + (int_bytes(record.0 as nat, 8) + (
        bool_bytes(record.1) + (blob_bytes(record.2) + (int_bytes(record.3 as nat, 4) + rest)))),
{
    assert(record_bytes(Some(record)) + rest =~= seq![1u8] + (int_bytes(record.0 as nat, 8) + (
    bool_bytes(record.1) + (blob_bytes(record.2) + (int_bytes(record.3 as nat, 4) + rest)))));
}

/// A log record is told from what follows.
proof fn lemma_record_first(
    a: Option<PlainRecordView>,
    ra: Seq<u8>,
    b: Option<PlainRecordView>,
    rb: Seq<u8>,
)
    requires
        a is Some ==> (a->0).2.len() <= u64::MAX,
        b is Some ==> (b->0).2.len() <= u64::MAX,
        record_bytes(a) + ra == record_bytes(b) + rb,
    ensures
        a == b,
        ra == rb,
{
    assert((record_bytes(a) + ra)[0] == record_bytes(a)[0]);
    assert((record_bytes(b) + rb)[0] == record_bytes(b)[0]);
    match (a, b) {
        (Some(x), Some(y)) => {
            lemma_record_parts(x, ra);
            lemma_record_parts(y, rb);
            let x3 = int_bytes(x.3 as nat, 4) + ra;
            let y3 = int_bytes(y.3 as nat, 4) + rb;
            let x2 = blob_bytes(x.2) + x3;
            let y2 = blob_bytes(y.2) + y3;
            let x1 = bool_bytes(x.1) + x2;
            let y1 = bool_bytes(y.1) + y2;
            lemma_split(
                seq![1u8],
                int_bytes(x.0 as nat, 8) + x1,
                seq![1u8],
                int_bytes(y.0 as nat, 8) + y1,
            );
            lemma_long_first(x.0 as nat, x1, y.0 as nat, y1);
            lemma_split(bool_bytes(x.1), x2, bool_bytes(y.1), y2);
            assert(bool_bytes(x.1)[0] == bool_bytes(y.1)[0]);
            lemma_blob_first(x.2, x3, y.2, y3);
            lemma_short_first(x.3 as nat, ra, y.3 as nat, rb);
        },
        (None, None) => {
            lemma_split(seq![0u8], ra, seq![0u8], rb);
        },
        _ => {
            if a is Some {
                lemma_record_parts(a->0, ra);
            } else {
                lemma_record_parts(b->0, rb);
            }
        },
    }
}

/// The bytes of a page version before `rest`, from the front on.
proof fn lemma_page_parts(page: PlainPageView, rest: Seq<u8>)
    ensures
        page_bytes(page) + rest == int_bytes(page.0.0 as nat, 4) + (int_bytes(page.0.1 as nat, 8)
            + (image_bytes(page.1.0) + (record_bytes(page.1.1) + rest))),
{
    assert(page_bytes(page) + rest =~= int_bytes(page.0.0 as nat, 4) + (int_bytes(
        page.0.1 as nat,
        8,
    ) + (image_bytes(page.1.0) + (record_bytes(page.1.1) + rest))));
}

/// A page version is told from what follows.
proof fn lemma_page_first(a: PlainPageView, ra: Seq<u8>, b: PlainPageView, rb: Seq<u8>)
    requires
        page_fits(a),
        page_fits(b),
        page_bytes(a) + ra == page_bytes(b) + rb,
    ensures
        a == b,
        ra == rb,
{
    lemma_page_parts(a, ra);
    lemma_page_parts(b, rb);
    let a3 = record_bytes(a.1.1) + ra;
    let b3 = record_bytes(b.1.1) + rb;
    let a2 = image_bytes(a.1.0) + a3;
    let b2 = image_bytes(b.1.0) + b3;
    let a1 = int_bytes(a.0.1 as nat, 8) + a2;
    let b1 = int_bytes(b.0.1 as nat, 8) + b2;
    lemma_short_first(a.0.0 as nat, a1, b.0.0 as nat, b1);
    lemma_long_first(a.0.1 as nat, a2, b.0.1 as nat, b2);
    lemma_image_first(a.1.0, a3, b.1.0, b3);
    lemma_record_first(a.1.1, ra, b.1.1, rb);
}

proof fn lemma_pages_injective(a: Seq<PlainPageView>, b: Seq<PlainPageView>)
    requires
        a.len() == b.len(),
        forall|i: int| 0 <= i < a.len() ==> page_fits(#[trigger] a[i]),
        forall|i: int| 0 <= i < b.len() ==> page_fits(#[trigger] b[i]),
        pages_bytes(a) == pages_bytes(b),
    ensures
        a == b,
    decreases a.len(),
{
    if a.len() > 0 {
        lemma_page_first(a[0], pages_bytes(a.drop_first()), b[0], pages_bytes(b.drop_first()));
        lemma_pages_injective(a.drop_first(), b.drop_first());
        assert(a =~= seq![a[0]] + a.drop_first());
        assert(b =~= seq![b[0]] + b.drop_first());
    } else {
        assert(a =~= b);
    }
}

proof fn lemma_sizes_injective(a: Seq<(u64, u32)>, b: Seq<(u64, u32)>)
    requires
        a.len() == b.len(),
        sizes_bytes(a) == sizes_bytes(b),
    ensures
        a == b,
    decreases a.len(),
{
    if a.len() > 0 {
        let ra = sizes_bytes(a.drop_first());
        let rb = sizes_bytes(b.drop_first());
        assert(sizes_bytes(a) =~= int_bytes(a[0].0 as nat, 8) + (int_bytes(a[0].1 as nat, 4) + ra));
        assert(sizes_bytes(b) =~= int_bytes(b[0].0 as nat, 8) + (int_bytes(b[0].1 as nat, 4) + rb));
        lemma_long_first(
            a[0].0 as nat,
            int_bytes(a[0].1 as nat, 4) + ra,
            b[0].0 as nat,
            int_bytes(b[0].1 as nat, 4) + rb,
        );
        lemma_short_first(a[0].1 as nat, ra, b[0].1 as nat, rb);
        lemma_sizes_injective(a.drop_first(), b.drop_first());
        assert(a =~= seq![a[0]] + a.drop_first());
        assert(b =~= seq![b[0]] + b.drop_first());
    } else {
        assert(a =~= b);
    }
}

/// No two lists of page versions have the same bytes.
pub proof fn law_page_bytes_differ(
    bytes: Seq<u8>,
    a: Seq<PlainPageView>,
    b: Seq<PlainPageView>,
)
    requires
        encodes_pages(bytes, a),
        encodes_pages(bytes, b),
    ensures
        a == b,
{
    lemma_long_first(a.len(), pages_bytes(a), b.len(), pages_bytes(b));
    lemma_pages_injective(a, b);
}

/// No two lists of segment sizes have the same bytes.
pub proof fn law_size_bytes_differ(bytes: Seq<u8>, a: Seq<(u64, u32)>, b: Seq<(u64, u32)>)
    requires
        encodes_sizes(bytes, a),
        encodes_sizes(bytes, b),
    ensures
        a == b,
{
    lemma_long_first(a.len(), sizes_bytes(a), b.len(), sizes_bytes(b));
    lemma_sizes_injective(a, b);
}

/// A number has its most significant byte first: one more byte at the end is what is
/// left of the number when the bytes before it are taken away.
pub proof fn law_bytes_of_a_number(high: nat, low: u8, width: nat)
    ensures
        int_bytes(high, 0) == Seq::<u8>::empty(),
        int_bytes(high * 256 + low as nat, width + 1) == int_bytes(high, width).push(low),
{
    let n = high * 256 + low as nat;
    assert(n / 256 == high);
    assert(n % 256 == low);
    assert(int_bytes(n, width + 1) =~= int_bytes(high, width).push(low));
}

/// Page versions stand one after the other, behind their number.
pub proof fn law_bytes_of_one_more_page(list: Seq<PlainPageView>, page: PlainPageView)
    ensures
        page_list_bytes(list) == int_bytes(list.len(), 8) + pages_bytes(list),
        pages_bytes(Seq::empty()) == Seq::<u8>::empty(),
        pages_bytes(list.push(page)) == pages_bytes(list) + page_bytes(page),
    decreases list.len(),
{
    let longer = list.push(page);
    assert(longer[0] == if list.len() == 0 { page } else { list[0] });
    if list.len() == 0 {
        assert(longer.drop_first() =~= Seq::empty());
        assert(pages_bytes(longer.drop_first()) == Seq::<u8>::empty());
        assert(pages_bytes(longer) =~= pages_bytes(list) + page_bytes(page));
    } else {
        law_bytes_of_one_more_page(list.drop_first(), page);
        assert(longer.drop_first() =~= list.drop_first().push(page));
        assert(pages_bytes(longer) =~= pages_bytes(list) + page_bytes(page));
    }
}

/// Segment sizes stand one after the other, behind their number; each is its position
/// in eight bytes and its blocks in four.
pub proof fn law_bytes_of_one_more_size(list: Seq<(u64, u32)>, size: (u64, u32))
    ensures
        size_list_bytes(list) == int_bytes(list.len(), 8) + sizes_bytes(list),
        sizes_bytes(Seq::empty()) == Seq::<u8>::empty(),
        sizes_bytes(list.push(size)) == sizes_bytes(list) + int_bytes(size.0 as nat, 8) + int_bytes(
            size.1 as nat,
            4,
        ),
    decreases list.len(),
{
    let longer = list.push(size);
    assert(longer[0] == if list.len() == 0 { size } else { list[0] });
    if list.len() == 0 {
        assert(longer.drop_first() =~= Seq::empty());
        assert(sizes_bytes(longer.drop_first()) == Seq::<u8>::empty());
        assert(sizes_bytes(longer) =~= sizes_bytes(list) + int_bytes(size.0 as nat, 8) + int_bytes(
            size.1 as nat,
            4,
        ));
    } else {
        law_bytes_of_one_more_size(list.drop_first(), size);
        assert(longer.drop_first() =~= list.drop_first().push(size));
        assert(sizes_bytes(longer) =~= sizes_bytes(list) + int_bytes(size.0 as nat, 8) + int_bytes(
            size.1 as nat,
            4,
        ));
    }
}

} // verus!
