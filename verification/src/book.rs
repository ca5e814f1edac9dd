//! Files made of chapters, in the format of the `bookfile` crate.
//!
//! A book is written to memory and read from memory: what is on disk is the
//! business of the caller.
use bookfile::{Book, BookError, BookWriter, ChapterWriter};
use std::io::{Cursor, Seek, SeekFrom, Write};
use vstd::prelude::*;

verus! {

/// A book that is being written.
#[verifier::external_type_specification]
#[verifier::external_body]
#[verifier::reject_recursive_types(W)]
pub struct ExBookWriter<W>(BookWriter<W>);

/// A chapter that is being written.
#[verifier::external_type_specification]
#[verifier::external_body]
#[verifier::reject_recursive_types(W)]
pub struct ExChapterWriter<W>(ChapterWriter<W>);

/// A book that is being read.
#[verifier::external_type_specification]
#[verifier::external_body]
#[verifier::reject_recursive_types(R)]
pub struct ExBook<R>(Book<R>);

/// A position in a buffer.
#[verifier::external_type_specification]
#[verifier::external_body]
#[verifier::reject_recursive_types(T)]
pub struct ExCursor<T>(Cursor<T>);

/// An error of the book format.
#[verifier::external_type_specification]
#[verifier::external_body]
pub struct ExBookError(BookError);

/// An error of a reader or writer.
#[verifier::external_type_specification]
#[verifier::external_body]
pub struct ExIoError(std::io::Error);

/// The number that a book is marked with.
pub uninterp spec fn book_magic(book: BookWriter<Vec<u8>>) -> u32;

/// The chapters that a book holds so far, each with its number.
pub uninterp spec fn book_chapters(book: BookWriter<Vec<u8>>) -> Seq<(u64, Seq<u8>)>;

/// The number that the book of an open chapter is marked with.
pub uninterp spec fn open_magic(chapter: ChapterWriter<Vec<u8>>) -> u32;

/// The chapters before an open one.
pub uninterp spec fn open_before(chapter: ChapterWriter<Vec<u8>>) -> Seq<(u64, Seq<u8>)>;

/// The number of an open chapter.
pub uninterp spec fn open_number(chapter: ChapterWriter<Vec<u8>>) -> u64;

/// What was written to an open chapter.
pub uninterp spec fn open_data(chapter: ChapterWriter<Vec<u8>>) -> Seq<u8>;

/// The file that a finished book is.
pub uninterp spec fn book_file(magic: u32, chapters: Seq<(u64, Seq<u8>)>) -> Seq<u8>;

/// The file that a book is read from.
pub uninterp spec fn read_file(book: Book<Cursor<Vec<u8>>>) -> Seq<u8>;

/// Whether a file has the header and the table of contents of a book.
pub uninterp spec fn file_opens(file: Seq<u8>) -> bool;

/// The length that the table of contents of a file gives for a chapter; `None`
/// where there is no such chapter, or where its end is no position in any file.
pub uninterp spec fn chapter_extent(file: Seq<u8>, number: u64) -> Option<u64>;

/// The bytes of a file that belong to a chapter, as far as the file reaches;
/// `None` where reading fails.
pub uninterp spec fn chapter_data(file: Seq<u8>, number: u64) -> Option<Seq<u8>>;

/// The number that bytes stand for, the most significant byte first.
pub open spec fn be_value(bytes: Seq<u8>) -> nat
    decreases bytes.len(),
{
    if bytes.len() == 0 {
        0
    } else {
        be_value(bytes.drop_last()) * 256 + bytes.last() as nat
    }
}

/// Whether the length of the table of contents, which the last eight bytes of a
/// file give, leaves the table inside the file.
pub open spec fn contents_fit(file: Seq<u8>) -> bool {
    &&& file.len() >= 8
    &&& be_value(file.skip(file.len() - 8)) <= file.len() - 8
}

/// Whether no chapter before the one at `i` has its number.
pub open spec fn is_first_chapter(chapters: Seq<(u64, Seq<u8>)>, i: int) -> bool {
    &&& 0 <= i < chapters.len()
    &&& forall|j: int| 0 <= j < i ==> (#[trigger] chapters[j]).0 != chapters[i].0
}

/// Whether the first chapter of each number is read from a file as it is in
/// `chapters`.
pub open spec fn chapters_read_back(file: Seq<u8>, chapters: Seq<(u64, Seq<u8>)>) -> bool {
    forall|i: int| #[trigger]
        is_first_chapter(chapters, i) ==> {
            &&& chapter_extent(file, chapters[i].0) == Some(chapters[i].1.len() as u64)
            &&& chapter_data(file, chapters[i].0) == Some(chapters[i].1)
        }
}

/// Begins a book in memory: `BookWriter::new` on an empty buffer. The book is
/// marked with the given number and has no chapters. Writing the header to memory
/// does not fail.
#[verifier::external_body]
fn start_book(magic: u32) -> (r: Result<BookWriter<Vec<u8>>, BookError>)
    ensures
        r is Ok,
        book_magic(r->Ok_0) == magic,
        book_chapters(r->Ok_0) == Seq::<(u64, Seq<u8>)>::empty(),
{
    BookWriter::new(Vec::new(), magic)
}

/// Begins a chapter: `BookWriter::new_chapter`. Nothing is written to it yet.
#[verifier::external_body]
fn start_chapter(book: BookWriter<Vec<u8>>, number: u64) -> (chapter: ChapterWriter<Vec<u8>>)
    ensures
        open_magic(chapter) == book_magic(book),
        open_before(chapter) == book_chapters(book),
        open_number(chapter) == number,
        open_data(chapter) == Seq::<u8>::empty(),
{
    book.new_chapter(number)
}

/// Writes to a chapter: `Write::write_all` of `ChapterWriter`. The bytes follow
/// those that were written before. Writing to memory does not fail.
#[verifier::external_body]
fn write_to_chapter(chapter: &mut ChapterWriter<Vec<u8>>, data: &Vec<u8>) -> (r: Result<
    (),
    std::io::Error,
>)
    ensures
        r is Ok,
        open_magic(*final(chapter)) == open_magic(*old(chapter)),
        open_before(*final(chapter)) == open_before(*old(chapter)),
        open_number(*final(chapter)) == open_number(*old(chapter)),
        open_data(*final(chapter)) == open_data(*old(chapter)) + data@,
{
    chapter.write_all(data)
}

/// Ends a chapter: `ChapterWriter::close`. It becomes the last chapter of its
/// book. Flushing to memory does not fail.
#[verifier::external_body]
fn close_chapter(chapter: ChapterWriter<Vec<u8>>) -> (r: Result<BookWriter<Vec<u8>>, BookError>)
    ensures
        r is Ok,
        book_magic(r->Ok_0) == open_magic(chapter),
        book_chapters(r->Ok_0) == open_before(chapter).push(
            (open_number(chapter), open_data(chapter)),
        ),
{
    chapter.close()
}

/// Ends a book: `BookWriter::close`. The file is a function of the number that the
/// book is marked with and of its chapters, and ends in its table of contents and
/// the length of that table. The file opens, and the first chapter of each number is
/// read back as it was written. A table that is too long is left out: writing one
/// whose length does not fit in four bytes panics, and a shorter one may still be
/// above the limit for reading. That of a hundred chapters is far below both.
#[verifier::external_body]
fn close_book(book: BookWriter<Vec<u8>>) -> (r: Result<Vec<u8>, BookError>)
    requires
        book_chapters(book).len() <= 100,
    ensures
        r is Ok,
        r->Ok_0@ == book_file(book_magic(book), book_chapters(book)),
        contents_fit(r->Ok_0@),
        file_opens(r->Ok_0@),
        chapters_read_back(r->Ok_0@, book_chapters(book)),
{
    book.close()
}

/// Opens a book that lies in memory: `Book::new` on a `Cursor`. Whether this
/// succeeds is a function of the file. A file whose table of contents would begin
/// before the file does is left out: the position of the table is computed without
/// a check.
#[verifier::external_body]
fn open_book(file: Vec<u8>) -> (r: Result<Book<Cursor<Vec<u8>>>, BookError>)
    requires
        contents_fit(file@),
    ensures
        r is Ok <==> file_opens(file@),
        r is Ok ==> read_file(r->Ok_0) == file@,
{
    Book::new(Cursor::new(file))
}

/// Measures a chapter: `Book::exclusive_chapter_reader`, and `Seek::seek` of its
/// `BoundedReader` to the length that `BoundedReader::len` gives. It fails where
/// there is no such chapter, and where the end of the chapter is above the largest
/// position. Reading a book does not change the file.
#[verifier::external_body]
fn measure_chapter(book: &mut Book<Cursor<Vec<u8>>>, number: u64) -> (r: Result<u64, BookError>)
    ensures
        read_file(*final(book)) == read_file(*old(book)),
        match r {
            Ok(length) => chapter_extent(read_file(*old(book)), number) == Some(length),
            Err(_) => chapter_extent(read_file(*old(book)), number) is None,
        },
{
    let mut reader = book.exclusive_chapter_reader(number)?;
    let length = reader.len();
    Ok(reader.seek(SeekFrom::Start(length))?)
}

/// Reads a chapter: `Book::exclusive_read_chapter`. The result is a function of the
/// file and the number. A chapter whose end is above the largest position is left
/// out: its end is computed without a check.
#[verifier::external_body]
fn read_measured_chapter(book: &mut Book<Cursor<Vec<u8>>>, number: u64) -> (r: Result<
    Vec<u8>,
    BookError,
>)
    requires
        chapter_extent(read_file(*old(book)), number) is Some,
    ensures
        read_file(*final(book)) == read_file(*old(book)),
        match r {
            Ok(data) => chapter_data(read_file(*old(book)), number) == Some(data@),
            Err(_) => chapter_data(read_file(*old(book)), number) is None,
        },
{
    Ok(book.exclusive_read_chapter(number)?.into_vec())
}

/// The contents of a chapter of a file; `None` where there is no such chapter, or
/// where the file does not reach to its end.
pub open spec fn chapter_of(file: Seq<u8>, number: u64) -> Option<Seq<u8>> {
    match (chapter_extent(file, number), chapter_data(file, number)) {
        (Some(length), Some(data)) => if data.len() == length {
            Some(data)
        } else {
            None
        },
        _ => None,
    }
}

/// Writes a book of two chapters.
pub fn write_book(
    magic: u32,
    first: u64,
    first_data: &Vec<u8>,
    second: u64,
    second_data: &Vec<u8>,
) -> (file: Vec<u8>)
    requires
        first != second,
    ensures
        file@ == book_file(magic, seq![(first, first_data@), (second, second_data@)]),
        is_book(file@),
        chapter_of(file@, first) == Some(first_data@),
        chapter_of(file@, second) == Some(second_data@),
{
    let book: BookWriter<Vec<u8>> = start_book(magic).unwrap();
    let book: BookWriter<Vec<u8>> = write_chapter(book, first, first_data);
    let book: BookWriter<Vec<u8>> = write_chapter(book, second, second_data);
    let ghost chapters = seq![(first, first_data@), (second, second_data@)];
    proof {
        assert(book_chapters(book) =~= chapters);
        assert(is_first_chapter(chapters, 0));
        assert(is_first_chapter(chapters, 1));
        assert(first_data.len() == first_data@.len());
        assert(second_data.len() == second_data@.len());
        assert(chapters[0] == (first, first_data@));
        assert(chapters[1] == (second, second_data@));
    }
    close_book(book).unwrap()
}

/// Adds a chapter to a book.
fn write_chapter(book: BookWriter<Vec<u8>>, number: u64, data: &Vec<u8>) -> (longer: BookWriter<
    Vec<u8>,
>)
    ensures
        book_magic(longer) == book_magic(book),
        book_chapters(longer) == book_chapters(book).push((number, data@)),
{
    let mut chapter: ChapterWriter<Vec<u8>> = start_chapter(book, number);
    write_to_chapter(&mut chapter, data).unwrap();
    assert(open_data(chapter) =~= data@);
    close_chapter(chapter).unwrap()
}

/// The number that eight bytes of `file` from `at` on stand for.
fn be_number_at(file: &Vec<u8>, at: usize) -> (value: u64)
    requires
        at + 8 <= file.len(),
    ensures
        value == be_value(file@.subrange(at as int, at + 8)),
{
    let mut value: u64 = 0;
    let mut i: usize = 0;
    let ghost bytes = file@.subrange(at as int, at + 8);
    let ghost mut bound: nat = 1;
    while i < 8
        invariant
            i <= 8,
            at + 8 <= file.len(),
            bytes == file@.subrange(at as int, at + 8),
            value == be_value(bytes.take(i as int)),
            value < bound,
            i == 0 ==> bound == 1,
            i == 1 ==> bound == 0x100,
            i == 2 ==> bound == 0x1_0000,
            i == 3 ==> bound == 0x100_0000,
            i == 4 ==> bound == 0x1_0000_0000,
            i == 5 ==> bound == 0x100_0000_0000,
            i == 6 ==> bound == 0x1_0000_0000_0000,
            i == 7 ==> bound == 0x100_0000_0000_0000,
            i == 8 ==> bound == 0x1_0000_0000_0000_0000,
        decreases 8 - i,
    {
        proof {
            let longer = bytes.take(i + 1);
            assert(longer.drop_last() =~= bytes.take(i as int));
            assert(longer.last() == file@[at + i]);
            bound = bound * 256;
        }
        value = value * 256 + (file[at + i] as u64);
        i += 1;
    }
    assert(bytes.take(8) =~= bytes);
    value
}

/// Whether a file can be read as a book.
pub open spec fn is_book(file: Seq<u8>) -> bool {
    contents_fit(file) && file_opens(file)
}

/// Opens a book; `None` where the file is none.
pub fn open_file(file: Vec<u8>) -> (book: Option<Book<Cursor<Vec<u8>>>>)
    ensures
        match book {
            Some(book) => is_book(file@) && read_file(book) == file@,
            None => !is_book(file@),
        },
{
    let n: usize = file.len();
    if n < 8 {
        return None;
    }
    let length: u64 = be_number_at(&file, n - 8);
    assert(file@.subrange(n - 8, n as int) =~= file@.skip(n - 8));
    if length > (n - 8) as u64 {
        return None;
    }
    match open_book(file) {
        Ok(book) => Some(book),
        Err(_) => None,
    }
}

/// Reads a chapter of a book; `None` where there is no such chapter, or where the
/// file does not reach to its end.
pub fn read_chapter(book: &mut Book<Cursor<Vec<u8>>>, number: u64) -> (data: Option<Vec<u8>>)
    ensures
        read_file(*final(book)) == read_file(*old(book)),
        match data {
            Some(data) => chapter_of(read_file(*old(book)), number) == Some(data@),
            None => chapter_of(read_file(*old(book)), number) is None,
        },
{
    let length: u64 = match measure_chapter(book, number) {
        Ok(length) => length,
        Err(_) => {
            return None;
        },
    };
    match read_measured_chapter(book, number) {
        Ok(data) => if data.len() as u64 == length {
            Some(data)
        } else {
            None
        },
        Err(_) => None,
    }
}

/// The most significant byte of a number stands first.
pub proof fn law_value_of_bytes(bytes: Seq<u8>, low: u8)
    ensures
        be_value(Seq::empty()) == 0,
        be_value(bytes.push(low)) == be_value(bytes) * 256 + low,
{
    assert(bytes.push(low).drop_last() =~= bytes);
}

/// A file is a book if and only if it opens, and the number that its last eight bytes
/// are is not above that of the bytes before them.
pub proof fn law_what_a_book_is(front: Seq<u8>, length: Seq<u8>)
    requires
        length.len() == 8,
    ensures
        is_book(front + length) <==> file_opens(front + length) && be_value(length) <= front.len(),
        forall|file: Seq<u8>| file.len() < 8 ==> !#[trigger] is_book(file),
{
    let file = front + length;
    assert(file.skip(file.len() - 8) =~= length);
}

/// A chapter has these contents if and only if they are what is read of it, and are as
/// long as the table of contents says.
pub proof fn law_contents_of_a_chapter(file: Seq<u8>, number: u64, data: Seq<u8>)
    ensures
        chapter_of(file, number) == Some(data) <==> {
            &&& chapter_data(file, number) == Some(data)
            &&& chapter_extent(file, number) matches Some(length) && length == data.len()
        },
{
}

} // verus!
