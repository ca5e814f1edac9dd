//! Where files are kept.
use crate::ids::{id_text, id_to_string, lemma_id_text, ZTenantId, ZTimelineId};
use vstd::prelude::*;

verus! {

/// Where the files of the server are.
#[derive(Debug)]
pub struct PageServerConf {
    /// The directory under which all others are.
    pub workdir: String,
}

/// The part of a path for `name` under `base`.
pub open spec fn path_join(base: Seq<char>, name: Seq<char>) -> Seq<char> {
    if base.len() == 0 || base.last() == '/' {
        base + name
    } else {
        base.push('/') + name
    }
}

/// The directory of a timeline.
pub open spec fn timeline_path_text(
    workdir: Seq<char>,
    timelineid: ZTimelineId,
    tenantid: ZTenantId,
) -> Seq<char> {
    let tenant = path_join(path_join(workdir, "tenants"@), id_text(tenantid.0));
    path_join(path_join(tenant, "timelines"@), id_text(timelineid.0))
}

/// Appends `name` to a path.
pub(crate) fn push_path(out: &mut String, name: &str)
    ensures
        final(out)@ == path_join(old(out)@, name@),
{
    proof {
        reveal_strlit("/");
    }
    let n: usize = out.as_str().unicode_len();
    if n > 0 && out.as_str().get_char(n - 1) != '/' {
        out.append("/");
    }
    out.append(name);
    assert(out@ =~= path_join(old(out)@, name@));
}

impl PageServerConf {
    /// The directory of a timeline.
    pub fn timeline_path(&self, timelineid: &ZTimelineId, tenantid: &ZTenantId) -> (path: String)
        ensures
            path@ == timeline_path_text(self.workdir@, *timelineid, *tenantid),
    {
        let mut out: String = self.workdir.clone();
        push_path(&mut out, "tenants");
        push_path(&mut out, id_to_string(tenantid.0).as_str());
        push_path(&mut out, "timelines");
        push_path(&mut out, id_to_string(timelineid.0).as_str());
        out
    }
}

/// A part is added to a path with one slash between them, but to an empty path, and to
/// one that ends in a slash, with none.
pub proof fn law_added_part(base: Seq<char>, name: Seq<char>)
    ensures
        path_join(Seq::empty(), name) == name,
        base.len() > 0 && base.last() != '/' ==> path_join(base, name) == base + seq!['/'] + name,
        base.len() > 0 && base.last() == '/' ==> path_join(base, name) == base + name,
{
    assert(path_join(Seq::empty(), name) =~= name);
    assert(base.push('/') =~= base + seq!['/']);
}

/// The directory of a timeline stands under that of its tenant, which stands under the
/// working directory.
pub proof fn law_timeline_directory(
    workdir: Seq<char>,
    timelineid: ZTimelineId,
    tenantid: ZTenantId,
)
    ensures
        timeline_path_text(workdir, timelineid, tenantid) == path_join(workdir, "tenants/"@)
            + id_text(tenantid.0) + "/timelines/"@ + id_text(timelineid.0),
{
    reveal_strlit("tenants");
    reveal_strlit("tenants/");
    reveal_strlit("timelines");
    reveal_strlit("/timelines/");
    lemma_id_text(tenantid.0);
    let tenants = path_join(workdir, "tenants"@);
    assert(tenants.last() == 's');
    assert(tenants.push('/') =~= path_join(workdir, "tenants/"@));
    let tenant = path_join(tenants, id_text(tenantid.0));
    assert(tenant == tenants.push('/') + id_text(tenantid.0));
    assert(tenant.last() == id_text(tenantid.0).last());
    let timelines = path_join(tenant, "timelines"@);
    assert(timelines.last() == 's');
    assert(timelines.push('/') =~= tenant + "/timelines/"@);
}

} // verus!
