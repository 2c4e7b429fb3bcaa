//! Device links: accumulating the symbolic links that an enumeration of the
//! link database reports for one device path.
use vstd::prelude::*;
use crate::error::Error;

verus! {

/// Link-kind code of a primary link.
pub const DI_PRIMARY_LINK: u32 = 1;

/// Link-kind code of a secondary link.
pub const DI_SECONDARY_LINK: u32 = 2;

/// What a link callback returns to have the enumeration go on.
pub const DI_WALK_CONTINUE: i32 = 0;

#[derive(Clone, Copy, Debug, PartialEq, Eq, Structural)]
pub enum DevLinkType {
    Primary,
    Secondary,
}

/// The link kind that a link-kind code stands for, if any.
pub open spec fn link_type_of(raw: u32) -> Option<DevLinkType> {
    if raw == DI_PRIMARY_LINK {
        Some(DevLinkType::Primary)
    } else if raw == DI_SECONDARY_LINK {
        Some(DevLinkType::Secondary)
    } else {
        None
    }
}

/// One symbolic link: its own path, the path it resolves to, and its kind.
#[derive(Clone, Debug)]
pub struct DevLink {
    path: String,
    content: String,
    linktype: DevLinkType,
}

impl DevLink {
    pub closed spec fn path_view(&self) -> Seq<char> {
        self.path@
    }

    pub closed spec fn target_view(&self) -> Seq<char> {
        self.content@
    }

    pub closed spec fn type_view(&self) -> DevLinkType {
        self.linktype
    }

    pub fn path(&self) -> (r: &str)
        ensures
            r@ == self.path_view(),
    {
        self.path.as_str()
    }

    pub fn target(&self) -> (r: &str)
        ensures
            r@ == self.target_view(),
    {
        self.content.as_str()
    }

    pub fn linktype(&self) -> (r: DevLinkType)
        ensures
            r == self.type_view(),
    {
        self.linktype
    }
}

impl PartialEq for DevLink {
    fn eq(&self, o: &DevLink) -> (r: bool)
        ensures
            r == (self.path_view() == o.path_view() && self.target_view() == o.target_view()
                && self.type_view() == o.type_view()),
    {
        self.path == o.path && self.content == o.content && self.linktype == o.linktype
    }
}

impl vstd::std_specs::cmp::PartialEqSpecImpl for DevLink {
    open spec fn obeys_eq_spec() -> bool {
        true
    }

    open spec fn eq_spec(&self, o: &DevLink) -> bool {
        self.path_view() == o.path_view() && self.target_view() == o.target_view()
            && self.type_view() == o.type_view()
    }
}

impl Eq for DevLink {
}

/// Takes in one link reported by the enumeration. A link whose path or
/// target could not be read, or whose kind is not known, is passed over;
/// the enumeration goes on either way.
pub fn devlink_accumulate(
    out: &mut Vec<DevLink>,
    path: Option<String>,
    content: Option<String>,
    ltype: u32,
) -> (r: i32)
    ensures
        r == DI_WALK_CONTINUE,
        (path is Some && content is Some && link_type_of(ltype) is Some) ==> {
            &&& final(out)@.len() == old(out)@.len() + 1
            &&& final(out)@.take(old(out)@.len() as int) == old(out)@
            &&& final(out)@.last().path_view() == path->Some_0@
            &&& final(out)@.last().target_view() == content->Some_0@
            &&& Some(final(out)@.last().type_view()) == link_type_of(ltype)
        },
        !(path is Some && content is Some && link_type_of(ltype) is Some) ==> final(out)@ == old(
            out,
        )@,
{
    let linktype = if ltype == DI_PRIMARY_LINK {
        DevLinkType::Primary
    } else if ltype == DI_SECONDARY_LINK {
        DevLinkType::Secondary
    } else {
        return DI_WALK_CONTINUE;
    };
    match (path, content) {
        (Some(path), Some(content)) => {
            let ghost before = out@;
            out.push(DevLink { path, content, linktype });
            assert(out@.take(before.len() as int) =~= before);
        },
        _ => {},
    }
    DI_WALK_CONTINUE
}

/// The outcome of an enumeration: the links taken in where it reported
/// success (status 0), else a walk error with the OS error number, the
/// links taken in so far being dropped.
pub fn links_result(out: Vec<DevLink>, status: i32, errno: i32) -> (r: Result<Vec<DevLink>, Error>)
    ensures
        status == 0 ==> (r matches Ok(v) && v@ == out@),
        status != 0 ==> r == Err::<Vec<DevLink>, Error>(Error::Walk(errno)),
{
    if status != 0 {
        return Err(Error::Walk(errno));
    }
    Ok(out)
}

} // verus!
