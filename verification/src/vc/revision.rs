//! Revisions: a snapshot of tracked items with its history links.
use vstd::prelude::*;
use crate::strmap::{StrMap, Dup, seq_to_map, distinct_keys};
use crate::vc::file::{ItemInfo, ItemInfoV, spec_retrieve_info, retrieve_info, named, is_named, unnamed_error};
use crate::ui::{Errors, ErrV, IoKind, io_e, static_e, err_v, unit_v};
use crate::dsr::{Disk, DiskV, NodeV, Node, spec_read_node, read_node, spec_write_node, write_node};
use crate::path::{spec_path_compose, path_compose, is_name};
use crate::json::{rev_json, rev_to_json};
use crate::outside::{system_time_now, local_date_time, date_time_text};
use crate::strs::{owned, concat};
use crate::vc::repository::locate::{spec_checked_sha, checked_sha};

verus! {

/// A point in time, as seconds and nanoseconds since the Unix epoch.
#[derive(Debug, Clone, Copy, PartialEq, Eq, Structural)]
pub struct TimeStamp {
    pub secs: u64,
    pub nanos: u32,
}

/// The last second of the year 262142, the last date that chrono holds, in
/// seconds since the Unix epoch.
pub const LAST_WRITABLE_SECOND: u64 = 8_210_266_876_799;

/// A time that can be written as a date: its whole seconds, those that the
/// nanoseconds carry over included, fall no later than chrono's last date.
pub open spec fn time_in_range(t: TimeStamp) -> bool {
    t.secs + t.nanos / 1_000_000_000 <= LAST_WRITABLE_SECOND
}

/// A revision.
pub struct Rev {
    pub rev_id: Option<String>,
    pub parent_id: Option<String>,
    pub parent_id2: Option<String>,
    pub user_id: Option<String>,
    pub time_stamp: TimeStamp,
    pub message: Option<String>,
    /// Tracked items by path relative to the working directory.
    pub manifest: StrMap<ItemInfo>,
}

/// The view of an optional string.
pub open spec fn ov(o: Option<String>) -> Option<Seq<char>> {
    match o {
        Some(s) => Some(s@),
        None => None,
    }
}

/// Duplicates an optional string.
pub fn dup_opt(o: &Option<String>) -> (r: Option<String>)
    ensures
        ov(r) == ov(*o),
{
    match o {
        Some(s) => Some(s.clone()),
        None => None,
    }
}

/// The view of a [`Rev`].
pub struct RevV {
    pub rev_id: Option<Seq<char>>,
    pub parent_id: Option<Seq<char>>,
    pub parent_id2: Option<Seq<char>>,
    pub user_id: Option<Seq<char>>,
    pub time_stamp: TimeStamp,
    pub message: Option<Seq<char>>,
    pub manifest: Seq<(Seq<char>, ItemInfoV)>,
}

impl View for Rev {
    type V = RevV;

    open spec fn view(&self) -> RevV {
        RevV {
            rev_id: ov(self.rev_id),
            parent_id: ov(self.parent_id),
            parent_id2: ov(self.parent_id2),
            user_id: ov(self.user_id),
            time_stamp: self.time_stamp,
            message: ov(self.message),
            manifest: self.manifest.ev(),
        }
    }
}

impl RevV {
    /// The manifest as a map.
    pub open spec fn mmap(self) -> Map<Seq<char>, ItemInfoV> {
        seq_to_map(self.manifest)
    }

    pub open spec fn wf(self) -> bool {
        distinct_keys(self.manifest)
    }
}

impl Dup for Rev {
    fn dup(&self) -> (r: Self) {
        Rev {
            rev_id: dup_opt(&self.rev_id),
            parent_id: dup_opt(&self.parent_id),
            parent_id2: dup_opt(&self.parent_id2),
            user_id: dup_opt(&self.user_id),
            time_stamp: self.time_stamp,
            message: dup_opt(&self.message),
            manifest: self.manifest.dup_map(),
        }
    }
}

/// `Rev::from`: the revision stored at a path. Anything at the path that is
/// not a well-formed revision record fails to decode.
pub open spec fn spec_rev_from(d: DiskV, p: Seq<char>) -> Result<RevV, ErrV> {
    match spec_read_node(d, p) {
        Err(e) => Err(e),
        Ok(n) => match n {
            NodeV::Rev(r) => if r.wf() {
                Ok(r)
            } else {
                Err(ErrV::Serde)
            },
            _ => Err(ErrV::Serde),
        },
    }
}

/// The text of an optional string, or a default.
pub open spec fn or_default(o: Option<Seq<char>>, dflt: Seq<char>) -> Seq<char> {
    match o {
        Some(s) => s,
        None => dflt,
    }
}

/// A revision's log with the given time text: its id, its author
/// (`Unknown` when none is recorded), the time and its message.
pub open spec fn spec_log(r: RevV, time: Seq<char>) -> Map<Seq<char>, Seq<char>> {
    map![
        seq!['i', 'd'] => or_default(r.rev_id, Seq::empty()),
        seq!['u', 's', 'e', 'r'] => or_default(r.user_id, seq!['U', 'n', 'k', 'n', 'o', 'w', 'n']),
        seq!['t', 'i', 'm', 'e'] => time,
        seq!['m', 'e', 's', 's', 'a', 'g', 'e'] => or_default(r.message, Seq::empty())
    ]
}

/// `Rev::save`: the revision written under its id in the directory
/// `rev_path`; a revision without an id is not saved.
pub open spec fn spec_rev_save(d: DiskV, r: RevV, rev_path: Seq<char>) -> (DiskV, Result<(), ErrV>) {
    match r.rev_id {
        None => (d, Err(ErrV::Str("Unable to save repo without id"@))),
        Some(id) => {
            let p = spec_path_compose(rev_path, id);
            if !named(p) {
                (d, io_e(IoKind::InvalidInput))
            } else {
                spec_write_node(d, p, NodeV::Rev(r))
            }
        },
    }
}

/// The revision as it is hashed for its id: the old id moved to the parent
/// and no id of its own.
pub open spec fn id_basis(r: RevV) -> RevV {
    RevV { rev_id: None, parent_id: r.rev_id, ..r }
}

/// The id `gen_id` gives a revision: the content id of its record with the
/// old id as parent and no id, in the store of revisions.
pub open spec fn spec_gen_id(d: DiskV, r: RevV, rev_path: Seq<char>) -> Seq<char> {
    spec_checked_sha(d, rev_json(id_basis(r)), rev_path)
}

fn opt_str(o: &Option<String>) -> (r: Option<&str>)
    ensures
        match r {
            Some(s) => ov(*o) == Some(s@),
            None => o is None,
        },
{
    match o {
        Some(s) => Some(s.as_str()),
        None => None,
    }
}

fn text_or(o: &Option<String>, dflt: &str) -> (r: String)
    ensures
        r@ == or_default(ov(*o), dflt@),
{
    match o {
        Some(s) => s.clone(),
        None => owned(dflt),
    }
}

impl Rev {
    /// The revision stored at a path.
    pub fn from(disk: &Disk, path: &str) -> (r: Result<Rev, Errors>)
        requires
            disk.wf(),
            named(path@),
        ensures
            match r {
                Ok(rev) => spec_rev_from(disk@, path@) == Ok::<RevV, ErrV>(rev@) && rev@.wf(),
                Err(e) => spec_rev_from(disk@, path@) == Err::<RevV, ErrV>(err_v(e)),
            },
    {
        match read_node(disk, path) {
            Err(e) => Err(e),
            Ok(Node::Rev(rev)) => {
                if rev.manifest.keys_distinct() {
                    let out = rev.dup();
                    Ok(out)
                } else {
                    Err(Errors::ErrSerde(concat("duplicate keys in the manifest of ", path)))
                }
            },
            Ok(_) => Err(Errors::ErrSerde(concat("not a revision record: ", path))),
        }
    }

    /// The revision's id.
    pub fn get_id(&self) -> (r: Option<&str>)
        ensures
            match r {
                Some(s) => self@.rev_id == Some(s@),
                None => self@.rev_id is None,
            },
    {
        opt_str(&self.rev_id)
    }

    /// The id of the revision's first parent.
    pub fn get_parent_id(&self) -> (r: Option<&str>)
        ensures
            match r {
                Some(s) => self@.parent_id == Some(s@),
                None => self@.parent_id is None,
            },
    {
        opt_str(&self.parent_id)
    }

    /// The id of the revision's second parent (set by a merge).
    pub fn get_parent_id2(&self) -> (r: Option<&str>)
        ensures
            match r {
                Some(s) => self@.parent_id2 == Some(s@),
                None => self@.parent_id2 is None,
            },
    {
        opt_str(&self.parent_id2)
    }

    /// The tracked items.
    pub fn get_manifest(&self) -> (r: &StrMap<ItemInfo>)
        ensures
            r.ev() == self@.manifest,
    {
        &self.manifest
    }

    /// The log of the revision for a given time text.
    pub fn log_with_time(&self, time: String) -> (r: StrMap<String>)
        ensures
            r.wf(),
            r.m() == spec_log(self@, time@),
    {
        let mut log: StrMap<String> = StrMap::new();
        log.insert(owned("id"), text_or(&self.rev_id, ""));
        log.insert(owned("user"), text_or(&self.user_id, "Unknown"));
        log.insert(owned("time"), time);
        log.insert(owned("message"), text_or(&self.message, ""));
        proof {
            reveal_strlit("id");
            reveal_strlit("user");
            reveal_strlit("Unknown");
            reveal_strlit("time");
            reveal_strlit("message");
            reveal_strlit("");
            assert("id"@ =~= seq!['i', 'd']);
            assert("user"@ =~= seq!['u', 's', 'e', 'r']);
            assert("Unknown"@ =~= seq!['U', 'n', 'k', 'n', 'o', 'w', 'n']);
            assert("time"@ =~= seq!['t', 'i', 'm', 'e']);
            assert("message"@ =~= seq!['m', 'e', 's', 's', 'a', 'g', 'e']);
            assert(""@ =~= Seq::<char>::empty());
            assert(log.m() =~= spec_log(self@, time@));
        }
        log
    }

    /// The log of the revision: id, author, local time and message.
    pub fn get_log(&self) -> (r: StrMap<String>)
        requires
            time_in_range(self.time_stamp),
        ensures
            r.wf(),
            r.m().contains_key(seq!['t', 'i', 'm', 'e']),
            r.m() == spec_log(self@, r.m()[seq!['t', 'i', 'm', 'e']]),
            date_time_text(self@.time_stamp, r.m()[seq!['t', 'i', 'm', 'e']]),
    {
        let t = self.get_date_time();
        self.log_with_time(t)
    }

    /// A revision with no id, parents, author or message and no items,
    /// stamped with the current time.
    pub fn new() -> (r: Rev)
        ensures
            r@.rev_id is None,
            r@.parent_id is None,
            r@.parent_id2 is None,
            r@.user_id is None,
            r@.message is None,
            r@.manifest == Seq::<(Seq<char>, ItemInfoV)>::empty(),
            r@.wf(),
    {
        Rev {
            rev_id: None,
            parent_id: None,
            parent_id2: None,
            user_id: None,
            time_stamp: system_time_now(),
            message: None,
            manifest: StrMap::new(),
        }
    }

    /// Writes the revision under its id into the directory `rev_path`.
    pub fn save(&self, disk: &mut Disk, rev_path: &str) -> (r: Result<(), Errors>)
        requires
            old(disk).wf(),
        ensures
            final(disk).wf(),
            (final(disk)@, unit_v(r)) == spec_rev_save(old(disk)@, self@, rev_path@),
    {
        match &self.rev_id {
            Some(id) => {
                let p = path_compose(rev_path, id.as_str());
                if !is_named(p.as_str()) {
                    return Err(unnamed_error(p.as_str()));
                }
                write_node(disk, p.as_str(), Node::Rev(self.dup()))
            },
            None => Err(Errors::ErrStr(owned("Unable to save repo without id"))),
        }
    }

    /// Tracks the item at a path, under its path relative to the working
    /// directory; an item already tracked there is replaced.
    pub fn add_file(&mut self, disk: &Disk, abs_path: &str) -> (r: Result<(), Errors>)
        requires
            disk.wf(),
            old(self)@.wf(),
        ensures
            final(self)@.wf(),
            match r {
                Ok(_) => spec_retrieve_info(disk@, abs_path@) is Ok && final(self)@ == (RevV {
                    manifest: final(self)@.manifest,
                    ..old(self)@
                }) && final(self)@.mmap() == old(self)@.mmap().insert(
                    spec_retrieve_info(disk@, abs_path@)->Ok_0.loc_in_wd,
                    spec_retrieve_info(disk@, abs_path@)->Ok_0,
                ),
                Err(e) => spec_retrieve_info(disk@, abs_path@) == Err::<ItemInfoV, ErrV>(err_v(e))
                    && final(self)@ == old(self)@,
            },
    {
        let new_entry = retrieve_info(disk, abs_path)?;
        let k = new_entry.loc_in_wd.clone();
        self.manifest.insert(k, new_entry);
        Ok(())
    }

    /// Stops tracking the item at a path, returning it. Fails when the item
    /// cannot be read or is not tracked.
    pub fn remove_file(&mut self, disk: &Disk, abs_path: &str) -> (r: Result<ItemInfo, Errors>)
        requires
            disk.wf(),
            old(self)@.wf(),
        ensures
            final(self)@.wf(),
            match spec_retrieve_info(disk@, abs_path@) {
                Err(e) => r matches Err(x) && err_v(x) == e && final(self)@ == old(self)@,
                Ok(info) => if old(self)@.mmap().contains_key(info.loc_in_wd) {
                    r matches Ok(item) && item@ == old(self)@.mmap()[info.loc_in_wd] && final(self)@ == (RevV {
                        manifest: final(self)@.manifest,
                        ..old(self)@
                    }) && final(self)@.mmap() == old(self)@.mmap().remove(info.loc_in_wd)
                } else {
                    r matches Err(x) && err_v(x) == ErrV::Static("Unable to remove untracked file"@)
                        && final(self)@ == old(self)@
                },
            },
    {
        let entry = retrieve_info(disk, abs_path)?;
        let entry_loc_path = entry.get_file_wd_path();
        if !self.manifest.contains_key(entry_loc_path) {
            return Err(Errors::Errstatic("Unable to remove untracked file"));
        }
        match self.manifest.remove(entry_loc_path) {
            Some(item) => Ok(item),
            None => Err(Errors::Errstatic("Unable to remove untracked file")),
        }
    }

    /// Stamps the revision with the current time.
    pub fn update_time(&mut self)
        ensures
            final(self)@ == (RevV { time_stamp: final(self)@.time_stamp, ..old(self)@ }),
    {
        self.time_stamp = system_time_now();
    }

    /// Gives the revision a new id: the old id becomes its first parent, and
    /// the new one is the content id of its record (without an id) in the
    /// store of revisions at `rev_path`.
    pub fn gen_id(&mut self, disk: &Disk, rev_path: &str) -> (r: Result<String, Errors>)
        requires
            disk.wf(),
        ensures
            r matches Ok(id) && id@ == spec_gen_id(disk@, old(self)@, rev_path@)
                && final(self)@ == (RevV { rev_id: Some(id@), parent_id: old(self)@.rev_id, ..old(self)@ }),
            r matches Ok(id) && is_name(id@),
    {
        let mut old_id: Option<String> = None;
        std::mem::swap(&mut old_id, &mut self.rev_id);
        self.parent_id = old_id;
        assert(self@ == id_basis(old(self)@));
        let text = rev_to_json(self);
        let id = checked_sha(disk, text.as_str(), rev_path);
        self.rev_id = Some(id.clone());
        Ok(id)
    }

    /// Records the author.
    pub fn set_user(&mut self, user_info: &str)
        ensures
            final(self)@ == (RevV { user_id: Some(user_info@), ..old(self)@ }),
    {
        self.user_id = Some(owned(user_info));
    }

    /// Records the message.
    pub fn set_message(&mut self, msg: &str)
        ensures
            final(self)@ == (RevV { message: Some(msg@), ..old(self)@ }),
    {
        self.message = Some(owned(msg));
    }

    /// Records the second parent.
    pub fn set_parent_2(&mut self, parent_2: &str)
        ensures
            final(self)@ == (RevV { parent_id2: Some(parent_2@), ..old(self)@ }),
    {
        self.parent_id2 = Some(owned(parent_2));
    }

    /// The revision's time in the machine's time zone; the time must fall
    /// within the dates that chrono holds.
    pub fn get_date_time(&self) -> (r: String)
        requires
            time_in_range(self.time_stamp),
        ensures
            date_time_text(self@.time_stamp, r@),
    {
        local_date_time(self.time_stamp)
    }
}

} // verus!
