//! Tracked items: a path relative to the working directory and what is there.
use vstd::prelude::*;
use crate::strmap::Dup;
use crate::ui::{Errors, ErrV, IoKind, io_e, err_v, unit_v};
use crate::dsr::{Disk, DiskV, spec_get_metadata, get_metadata, spec_read_file, read_file_as_string, spec_is_path_valid, is_path_valid, spec_copy_file, copy_file, spec_create_dir, create_dir};
use crate::path::{spec_path_compose, path_compose, spec_get_name, get_name};
use crate::strs::{concat, owned};
use crate::vc::repository::locate::{spec_check_wd, check_wd, spec_get_rel_path, get_rel_path, spec_checked_sha, checked_sha, slot_fits};
use crate::path::is_name;

verus! {

/// What a tracked path holds.
pub enum EntryType {
    /// A file, with the id under which its content is stored.
    File(String),
    Dir,
    Other,
}

/// The view of an [`EntryType`].
pub enum EntryV {
    File(Seq<char>),
    Dir,
    Other,
}

impl View for EntryType {
    type V = EntryV;

    open spec fn view(&self) -> EntryV {
        match self {
            EntryType::File(id) => EntryV::File(id@),
            EntryType::Dir => EntryV::Dir,
            EntryType::Other => EntryV::Other,
        }
    }
}

impl Dup for EntryType {
    fn dup(&self) -> (r: Self) {
        match self {
            EntryType::File(id) => EntryType::File(id.clone()),
            EntryType::Dir => EntryType::Dir,
            EntryType::Other => EntryType::Other,
        }
    }
}

/// A tracked item: its name (last path component), its path relative to
/// the working directory, and what it is.
pub struct ItemInfo {
    pub name: String,
    pub loc_in_wd: String,
    pub entry: EntryType,
}

/// The view of an [`ItemInfo`].
pub struct ItemInfoV {
    pub name: Seq<char>,
    pub loc_in_wd: Seq<char>,
    pub entry: EntryV,
}

impl View for ItemInfo {
    type V = ItemInfoV;

    open spec fn view(&self) -> ItemInfoV {
        ItemInfoV { name: self.name@, loc_in_wd: self.loc_in_wd@, entry: self.entry@ }
    }
}

impl Dup for ItemInfo {
    fn dup(&self) -> (r: Self) {
        ItemInfo { name: self.name.clone(), loc_in_wd: self.loc_in_wd.clone(), entry: self.entry.dup() }
    }
}

/// The content id of an item that is a file.
pub open spec fn spec_file_id(e: EntryV) -> Option<Seq<char>> {
    match e {
        EntryV::File(id) => Some(id),
        _ => None,
    }
}

impl ItemInfo {
    /// The item's name.
    pub fn get_file_name(&self) -> (r: &str)
        ensures
            r@ == self.name@,
    {
        self.name.as_str()
    }

    /// The item's path relative to the working directory.
    pub fn get_file_wd_path(&self) -> (r: &str)
        ensures
            r@ == self.loc_in_wd@,
    {
        self.loc_in_wd.as_str()
    }

    /// Whether the item is a file.
    pub fn is_file(&self) -> (r: bool)
        ensures
            r == (self.entry@ is File),
    {
        match &self.entry {
            EntryType::File(_) => true,
            _ => false,
        }
    }

    /// The content id of a file; none for anything else.
    pub fn get_file_id(&self) -> (r: Option<&str>)
        ensures
            match r {
                Some(id) => spec_file_id(self.entry@) == Some(id@),
                None => spec_file_id(self.entry@) is None,
            },
    {
        match &self.entry {
            EntryType::File(id) => Some(id.as_str()),
            _ => None,
        }
    }

    /// Whether two items are equal.
    pub fn same_as(&self, other: &ItemInfo) -> (r: bool)
        ensures
            r == (self@ == other@),
    {
        let e = match (&self.entry, &other.entry) {
            (EntryType::File(a), EntryType::File(b)) => *a == *b,
            (EntryType::Dir, EntryType::Dir) => true,
            (EntryType::Other, EntryType::Other) => true,
            _ => false,
        };
        self.name == other.name && self.loc_in_wd == other.loc_in_wd && e
    }
}

/// The path of a repository's content store below its working directory.
pub open spec fn dvcs_files() -> Seq<char> {
    seq!['.', 'd', 'v', 'c', 's', '/', 'f', 'i', 'l', 'e', 's']
}

/// Whether a path has a final component: the file operations need one.
pub open spec fn named(p: Seq<char>) -> bool {
    spec_get_name(p) is Some
}

/// Whether a path has a final component.
pub fn is_named(p: &str) -> (r: bool)
    ensures
        r == named(p@),
{
    get_name(p).is_some()
}

/// The error for a path that has no final component.
pub fn unnamed_error(p: &str) -> (r: Errors)
    ensures
        err_v(r) == ErrV::Io(IoKind::InvalidInput),
{
    Errors::ErrIo(IoKind::InvalidInput, concat("path has no final component: ", p))
}

/// `get_id`: the id under which the content of the file at `p` is stored in
/// the content store of the repository that holds it.
pub open spec fn spec_get_id(d: DiskV, p: Seq<char>) -> Result<Seq<char>, ErrV> {
    match spec_check_wd(d, p) {
        None => Err(ErrV::Str("unable to locate a repository in "@ + p)),
        Some(root) => match spec_read_file(d, p) {
            Err(e) => Err(e),
            Ok(content) => Ok(spec_checked_sha(d, content, spec_path_compose(root, dvcs_files()))),
        },
    }
}

/// The id that the content of the file at `p` gets is a name, and the
/// place it names in the store of the repository that holds `p` is free or
/// holds the same text.
pub open spec fn content_id_fits(d: DiskV, p: Seq<char>) -> bool {
    match spec_check_wd(d, p) {
        None => true,
        Some(root) => match spec_read_file(d, p) {
            Err(_) => true,
            Ok(content) => {
                let pool = spec_path_compose(root, dvcs_files());
                let id = spec_checked_sha(d, content, pool);
                is_name(id) && slot_fits(d, content, pool, id)
            },
        },
    }
}

/// The content id of the file at `file_path`, in the store of the
/// repository that holds it.
pub fn get_id(disk: &Disk, file_path: &str) -> (r: Result<String, Errors>)
    requires
        disk.wf(),
        named(file_path@),
    ensures
        crate::ui::str_v(r) == spec_get_id(disk@, file_path@),
        content_id_fits(disk@, file_path@),
{
    let wd_root = match check_wd(disk, file_path) {
        Some(w) => w,
        None => return Err(Errors::ErrStr(concat("unable to locate a repository in ", file_path))),
    };
    let repo_storage_dir = path_compose(wd_root.as_str(), ".dvcs/files");
    proof {
        reveal_strlit(".dvcs/files");
        assert(".dvcs/files"@ =~= dvcs_files());
    }
    let content = read_file_as_string(disk, file_path)?;
    Ok(checked_sha(disk, content.as_str(), repo_storage_dir.as_str()))
}

/// `retrieve_info`: the item at a path, with its path relative to the
/// working directory of its repository.
pub open spec fn spec_retrieve_info(d: DiskV, p: Seq<char>) -> Result<ItemInfoV, ErrV> {
    match spec_get_rel_path(d, p) {
        None => Err(ErrV::Str("Cannot find the proper working directory path for file "@ + p)),
        Some(rel) => if !named(p) {
            io_e(IoKind::InvalidInput)
        } else {
            match spec_get_metadata(d, p) {
                Err(e) => Err(e),
                Ok(is_dir) => {
                    let entry = if is_dir {
                        Ok(EntryV::Dir)
                    } else {
                        match spec_get_id(d, p) {
                            Ok(id) => Ok(EntryV::File(id)),
                            Err(e) => Err(e),
                        }
                    };
                    match entry {
                        Err(e) => Err(e),
                        Ok(en) => match spec_get_name(rel) {
                            None => Err(ErrV::Str("Fail to get file name from path "@ + p)),
                            Some(name) => Ok(ItemInfoV { name, loc_in_wd: rel, entry: en }),
                        },
                    }
                },
            }
        },
    }
}

/// The item at a path: its name, its path relative to the working directory
/// of the repository that holds it, and whether it is a directory or a file
/// with its content id. A path that has no final component is refused.
pub fn retrieve_info(disk: &Disk, abs_path: &str) -> (r: Result<ItemInfo, Errors>)
    requires
        disk.wf(),
    ensures
        match r {
            Ok(i) => spec_retrieve_info(disk@, abs_path@) == Ok::<ItemInfoV, ErrV>(i@),
            Err(e) => spec_retrieve_info(disk@, abs_path@) == Err::<ItemInfoV, ErrV>(err_v(e)),
        },
        r matches Ok(i) && i@.entry is File ==> content_id_fits(disk@, abs_path@),
{
    let rel_path = match get_rel_path(disk, abs_path) {
        Some(r) => r,
        None => return Err(Errors::ErrStr(concat("Cannot find the proper working directory path for file ", abs_path))),
    };
    if !is_named(abs_path) {
        return Err(unnamed_error(abs_path));
    }
    let meta = get_metadata(disk, abs_path)?;
    let entry = if meta.is_dir() {
        EntryType::Dir
    } else {
        let id = get_id(disk, abs_path)?;
        EntryType::File(id)
    };
    let name = match get_name(rel_path.as_str()) {
        Some(n) => n,
        None => return Err(Errors::ErrStr(concat("Fail to get file name from path ", abs_path))),
    };
    Ok(ItemInfo { name, loc_in_wd: rel_path, entry })
}

/// `make_file`: puts an item back into a working directory: a file is
/// copied from the content store, a missing directory is created.
pub open spec fn spec_make_file(d: DiskV, item: ItemInfoV, wd: Seq<char>) -> (DiskV, Result<(), ErrV>) {
    let target = spec_path_compose(wd, item.loc_in_wd);
    match item.entry {
        EntryV::File(id) => if !named(target) {
            (d, io_e(IoKind::InvalidInput))
        } else {
            spec_copy_file(d, spec_path_compose(spec_path_compose(wd, dvcs_files()), id), target)
        },
        EntryV::Dir => if spec_is_path_valid(d, target) {
            (d, Ok(()))
        } else if !named(target) {
            (d, io_e(IoKind::InvalidInput))
        } else {
            spec_create_dir(d, target)
        },
        EntryV::Other => (d, Ok(())),
    }
}

impl ItemInfo {
    /// Puts the item into the working directory `wd`: a file is copied from
    /// the repository's content store, a directory is created when missing.
    pub fn make_file(&self, disk: &mut Disk, wd: &str) -> (r: Result<(), Errors>)
        requires
            old(disk).wf(),
        ensures
            final(disk).wf(),
            (final(disk)@, unit_v(r)) == spec_make_file(old(disk)@, self@, wd@),
    {
        let wd_file_path = path_compose(wd, self.loc_in_wd.as_str());
        let repo_storage_dir = path_compose(wd, ".dvcs/files");
        proof {
            reveal_strlit(".dvcs/files");
            assert(".dvcs/files"@ =~= dvcs_files());
        }
        match &self.entry {
            EntryType::File(id) => {
                if !is_named(wd_file_path.as_str()) {
                    return Err(unnamed_error(wd_file_path.as_str()));
                }
                let repo_storage_file = path_compose(repo_storage_dir.as_str(), id.as_str());
                copy_file(disk, repo_storage_file.as_str(), wd_file_path.as_str())
            },
            EntryType::Dir => {
                if !is_path_valid(disk, wd_file_path.as_str()) {
                    if !is_named(wd_file_path.as_str()) {
                        return Err(unnamed_error(wd_file_path.as_str()));
                    }
                    create_dir(disk, wd_file_path.as_str())
                } else {
                    Ok(())
                }
            },
            EntryType::Other => Ok(()),
        }
    }
}

} // verus!
