//! Comparing and merging file contents, finding conflict markers, and the
//! common ancestor of two revisions.
use vstd::prelude::*;
use crate::ui::{Errors, ErrV, err_v};
use crate::strmap::Dup;
use crate::strs::{owned, concat, str_eq, push_char};
use crate::path::views;
use crate::json::{dec, push_dec};
use crate::outside::{diffy_patch, create_patch_text, diffy_merge, merge_texts};
pub mod lca;
pub use lca::find_rev_lca;

verus! {

/// How a file changed between two contents.
#[derive(Debug, Clone, Copy, PartialEq, Eq, Structural)]
pub enum FileDiffType {
    Added,
    Deleted,
    Modified,
    Unchanged,
}

/// The change between an original and a modified content, with the patch
/// that `diffy` writes for it.
#[derive(Debug, Clone, PartialEq)]
pub struct FileDiff {
    pub origin_content: String,
    pub mod_content: String,
    pub patch: String,
    pub diff_type: FileDiffType,
}

/// The view of a [`FileDiff`].
pub struct FileDiffV {
    pub origin_content: Seq<char>,
    pub mod_content: Seq<char>,
    pub patch: Seq<char>,
    pub diff_type: FileDiffType,
}

impl View for FileDiff {
    type V = FileDiffV;

    open spec fn view(&self) -> FileDiffV {
        FileDiffV {
            origin_content: self.origin_content@,
            mod_content: self.mod_content@,
            patch: self.patch@,
            diff_type: self.diff_type,
        }
    }
}

impl Dup for FileDiff {
    fn dup(&self) -> (r: Self) {
        FileDiff {
            origin_content: self.origin_content.clone(),
            mod_content: self.mod_content.clone(),
            patch: self.patch.clone(),
            diff_type: self.diff_type,
        }
    }
}

/// The change from one content to another.
pub open spec fn spec_file_diff(origin: Seq<char>, modified: Seq<char>) -> FileDiffV {
    FileDiffV {
        origin_content: origin,
        mod_content: modified,
        patch: diffy_patch(origin, modified),
        diff_type: spec_diff_type(origin, modified),
    }
}

/// The name of a change type, as `Debug` writes it.
pub fn diff_type_name(t: &FileDiffType) -> (r: &'static str)
    ensures
        r@ == match *t {
            FileDiffType::Added => "Added"@,
            FileDiffType::Deleted => "Deleted"@,
            FileDiffType::Modified => "Modified"@,
            FileDiffType::Unchanged => "Unchanged"@,
        },
{
    match t {
        FileDiffType::Added => "Added",
        FileDiffType::Deleted => "Deleted",
        FileDiffType::Modified => "Modified",
        FileDiffType::Unchanged => "Unchanged",
    }
}

/// How a file changed: added when there was no content, deleted when no
/// content is left, modified when the contents differ.
pub open spec fn spec_diff_type(origin: Seq<char>, modified: Seq<char>) -> FileDiffType {
    if origin.len() == 0 {
        FileDiffType::Added
    } else if modified.len() == 0 {
        FileDiffType::Deleted
    } else if origin != modified {
        FileDiffType::Modified
    } else {
        FileDiffType::Unchanged
    }
}

impl FileDiff {
    /// The change from `origin_content` to `mod_content`.
    pub fn new(origin_content: String, mod_content: String) -> (r: FileDiff)
        ensures
            r.origin_content@ == origin_content@,
            r.mod_content@ == mod_content@,
            r.patch@ == diffy_patch(origin_content@, mod_content@),
            r.diff_type == spec_diff_type(origin_content@, mod_content@),
    {
        let diff_type = if origin_content.unicode_len() == 0 {
            FileDiffType::Added
        } else if mod_content.unicode_len() == 0 {
            FileDiffType::Deleted
        } else if !str_eq(origin_content.as_str(), mod_content.as_str()) {
            FileDiffType::Modified
        } else {
            FileDiffType::Unchanged
        };
        let patch = create_patch_text(origin_content.as_str(), mod_content.as_str());
        FileDiff { origin_content, mod_content, patch, diff_type }
    }

    /// The original content.
    pub fn get_original(&self) -> (r: String)
        ensures
            r@ == self.origin_content@,
    {
        self.origin_content.clone()
    }

    /// The modified content.
    pub fn get_modified(&self) -> (r: String)
        ensures
            r@ == self.mod_content@,
    {
        self.mod_content.clone()
    }

    /// The patch text.
    pub fn get_patch(&self) -> (r: String)
        ensures
            r@ == self.patch@,
    {
        self.patch.clone()
    }

    /// The patch text.
    pub fn to_string(&self) -> (r: String)
        ensures
            r@ == self.patch@,
    {
        self.patch.clone()
    }

    /// How the file changed.
    pub fn get_diff_type(&self) -> (r: &FileDiffType)
        ensures
            *r == self.diff_type,
    {
        &self.diff_type
    }

    /// Whether the file changed.
    pub fn is_diff(&self) -> (r: bool)
        ensures
            r == (self.diff_type != FileDiffType::Unchanged),
    {
        match self.diff_type {
            FileDiffType::Unchanged => false,
            _ => true,
        }
    }

}

/// The change from one content to another.
pub fn file_diff(origin_content: String, mod_content: String) -> (r: FileDiff)
    ensures
        r.origin_content@ == origin_content@,
        r.mod_content@ == mod_content@,
        r.patch@ == diffy_patch(origin_content@, mod_content@),
        r.diff_type == spec_diff_type(origin_content@, mod_content@),
{
    FileDiff::new(origin_content, mod_content)
}

/// The three-way merge of two changes of the same original.
#[derive(Debug, Clone, PartialEq)]
pub struct FileConflict {
    pub origin_content: String,
    pub diff1: FileDiff,
    pub diff2: FileDiff,
    pub merged_content: String,
    pub is_conflict: bool,
}

/// A content that ends with a line break.
pub open spec fn with_newline(s: Seq<char>) -> Seq<char> {
    if s.len() > 0 && s.last() == '\n' {
        s
    } else {
        s.push('\n')
    }
}

fn force_end_with_newline(content: &str) -> (r: String)
    ensures
        r@ == with_newline(content@),
{
    let n = content.unicode_len();
    let mut r = owned(content);
    if !(n > 0 && content.get_char(n - 1) == '\n') {
        push_char(&mut r, '\n');
    }
    r
}

/// The merge of the modified contents of two changes against the original
/// of the first, each made to end with a line break.
pub open spec fn spec_merge(d1: FileDiff, d2: FileDiff) -> Result<Seq<char>, Seq<char>> {
    diffy_merge(with_newline(d1.origin_content@), with_newline(d1.mod_content@), with_newline(d2.mod_content@))
}

impl FileConflict {
    /// Merges two changes: the merged content, with conflict markers where
    /// the two changes conflict.
    pub fn new(diff1: FileDiff, diff2: FileDiff) -> (r: FileConflict)
        ensures
            r.origin_content@ == diff1.origin_content@,
            r.is_conflict == spec_merge(diff1, diff2) is Err,
            r.merged_content@ == match spec_merge(diff1, diff2) {
                Ok(s) => s,
                Err(s) => s,
            },
            r.diff1 == diff1,
            r.diff2 == diff2,
    {
        let origin = force_end_with_newline(diff1.origin_content.as_str());
        let mod1 = force_end_with_newline(diff1.mod_content.as_str());
        let mod2 = force_end_with_newline(diff2.mod_content.as_str());
        let merge_res = merge_texts(origin.as_str(), mod1.as_str(), mod2.as_str());
        let is_conflict = merge_res.is_err();
        let merged_content = match merge_res {
            Ok(m) => m,
            Err(m) => m,
        };
        let origin_content = diff1.origin_content.clone();
        FileConflict { origin_content, diff1, diff2, merged_content, is_conflict }
    }

    /// The merged content.
    pub fn get_content(&self) -> (r: String)
        ensures
            r@ == self.merged_content@,
    {
        self.merged_content.clone()
    }

    /// Whether the two changes conflict.
    pub fn is_conflict(&self) -> (r: bool)
        ensures
            r == self.is_conflict,
    {
        self.is_conflict
    }
}

/// Merges two changes of the same original. Fails when their originals
/// differ.
pub fn conflict_find(diff1: FileDiff, diff2: FileDiff) -> (r: Result<FileConflict, Errors>)
    ensures
        diff1.origin_content@ != diff2.origin_content@ ==> (r matches Err(e) && err_v(e) == ErrV::Static(
            "conflict_find: diff1 and diff2 have different original files"@,
        )),
        diff1.origin_content@ == diff2.origin_content@ ==> (r matches Ok(c) && c.origin_content@ == diff1.origin_content@
            && c.is_conflict == spec_merge(diff1, diff2) is Err && c.merged_content@ == match spec_merge(diff1, diff2) {
            Ok(s) => s,
            Err(s) => s,
        } && c.diff1 == diff1 && c.diff2 == diff2),
{
    if !str_eq(diff1.origin_content.as_str(), diff2.origin_content.as_str()) {
        return Err(Errors::Errstatic("conflict_find: diff1 and diff2 have different original files"));
    }
    Ok(FileConflict::new(diff1, diff2))
}

/// The lines of a text, as `str::split` on line breaks gives them: one more
/// than there are line breaks.
pub open spec fn split_lines(s: Seq<char>) -> Seq<Seq<char>>
    decreases s.len(),
{
    if s.len() == 0 {
        seq![Seq::empty()]
    } else {
        let prev = split_lines(s.drop_last());
        if s.last() == '\n' {
            prev.push(Seq::empty())
        } else {
            prev.update(prev.len() - 1, prev.last().push(s.last()))
        }
    }
}

proof fn lemma_split_lines_len(s: Seq<char>)
    ensures
        split_lines(s).len() >= 1,
    decreases s.len(),
{
    if s.len() > 0 {
        lemma_split_lines_len(s.drop_last());
    }
}

/// The split of a text at its line breaks.
pub fn split_lines_exec(s: &str) -> (r: Vec<String>)
    ensures
        views(r@) == split_lines(s@),
{
    let n = s.unicode_len();
    let mut lines: Vec<String> = Vec::new();
    let mut cur = String::new();
    let mut i: usize = 0;
    proof {
        assert(s@.subrange(0, 0) =~= Seq::<char>::empty());
        assert(views(lines@).push(cur@) =~= seq![Seq::<char>::empty()]);
    }
    while i < n
        invariant
            n == s@.len(),
            i <= n,
            views(lines@).push(cur@) == split_lines(s@.subrange(0, i as int)),
        decreases n - i,
    {
        let c = s.get_char(i);
        let ghost pre = s@.subrange(0, i as int);
        let ghost l0 = lines@;
        let ghost c0 = cur@;
        proof {
            let s1 = s@.subrange(0, i + 1);
            assert(s1.drop_last() =~= pre);
            assert(s1.last() == c);
            lemma_split_lines_len(pre);
        }
        if c == '\n' {
            let done = cur;
            lines.push(done);
            cur = String::new();
            proof {
                assert(views(lines@) =~= views(l0).push(c0));
                assert(views(lines@).push(cur@) =~= views(l0).push(c0).push(Seq::<char>::empty()));
            }
        } else {
            push_char(&mut cur, c);
            proof {
                let prev = views(l0).push(c0);
                assert(views(lines@).push(cur@) =~= prev.update(prev.len() - 1, prev.last().push(c)));
            }
        }
        i = i + 1;
    }
    proof {
        assert(s@.subrange(0, n as int) =~= s@);
    }
    let ghost l1 = lines@;
    lines.push(cur);
    proof {
        assert(views(lines@) =~= views(l1).push(lines@[lines@.len() - 1]@));
    }
    lines
}

/// The conflict markers that a merge writes, in order.
pub open spec fn marker(k: int) -> Seq<char> {
    if k == 0 {
        "<<<<<<< ours"@
    } else if k == 1 {
        "||||||| original"@
    } else if k == 2 {
        "======="@
    } else {
        ">>>>>>> theirs"@
    }
}

/// How far the lines go through the markers: the number of markers met in
/// order, or 5 once a line follows the last marker.
pub open spec fn marker_state(lines: Seq<Seq<char>>) -> int
    decreases lines.len(),
{
    if lines.len() == 0 {
        0
    } else {
        let k = marker_state(lines.drop_last());
        if k >= 4 {
            5
        } else if lines.last() == marker(k) {
            k + 1
        } else {
            k
        }
    }
}

/// The first line that equals `m`.
pub open spec fn first_index(lines: Seq<Seq<char>>, m: Seq<char>) -> int {
    choose|i: int| 0 <= i < lines.len() && lines[i] == m && forall|j: int| 0 <= j < i ==> lines[j] != m
}

/// `find_unmerged`: a text is unmerged when its lines hold the four
/// conflict markers in order and a line follows the last of them; the error
/// gives the first line that opens a conflict.
pub open spec fn spec_find_unmerged(content: Seq<char>) -> Result<(), Seq<char>> {
    let ls = split_lines(content);
    if marker_state(ls) == 5 {
        Err("File is unmerged at line "@ + dec(first_index(ls, marker(0)) as nat))
    } else {
        Ok(())
    }
}

proof fn lemma_marker_found(lines: Seq<Seq<char>>)
    requires
        marker_state(lines) >= 1,
    ensures
        exists|i: int| 0 <= i < lines.len() && lines[i] == marker(0),
    decreases lines.len(),
{
    let k = marker_state(lines.drop_last());
    if k >= 1 {
        lemma_marker_found(lines.drop_last());
        let i = choose|i: int| 0 <= i < lines.drop_last().len() && lines.drop_last()[i] == marker(0);
        assert(lines[i] == lines.drop_last()[i]);
    } else {
        assert(lines[lines.len() - 1] == marker(0));
    }
}

/// Checks a text for the conflict markers of an unresolved merge. Fails,
/// naming the first line that opens a conflict, when the four markers
/// occur on lines of their own in order and a line follows the last one.
pub fn find_unmerged(content: String) -> (r: Result<(), String>)
    ensures
        match r {
            Ok(_) => spec_find_unmerged(content@) is Ok,
            Err(m) => spec_find_unmerged(content@) == Err::<(), Seq<char>>(m@),
        },
{
    let lines = split_lines_exec(content.as_str());
    let ghost ls = views(lines@);
    let n = lines.len();
    let mut k: usize = 0;
    let mut i: usize = 0;
    proof {
        assert(ls.subrange(0, 0) =~= Seq::<Seq<char>>::empty());
    }
    while i < n
        invariant
            n == lines@.len(),
            ls == views(lines@),
            i <= n,
            k == marker_state(ls.subrange(0, i as int)),
            k <= 5,
        decreases n - i,
    {
        proof {
            let s1 = ls.subrange(0, i + 1);
            assert(s1.drop_last() =~= ls.subrange(0, i as int));
            assert(s1.last() == lines@[i as int]@);
        }
        let line = lines[i].as_str();
        if k >= 4 {
            k = 5;
        } else {
            let m = if k == 0 {
                "<<<<<<< ours"
            } else if k == 1 {
                "||||||| original"
            } else if k == 2 {
                "======="
            } else {
                ">>>>>>> theirs"
            };
            assert(m@ == marker(k as int));
            if str_eq(line, m) {
                k = k + 1;
            }
        }
        i = i + 1;
    }
    proof {
        assert(ls.subrange(0, n as int) =~= ls);
    }
    if k != 5 {
        return Ok(());
    }
    proof {
        lemma_marker_found(ls);
    }
    let mut j: usize = 0;
    while j < n
        invariant
            n == lines@.len(),
            ls == views(lines@),
            j <= n,
            ls == split_lines(content@),
            marker_state(ls) == 5,
            forall|t: int| 0 <= t < j ==> ls[t] != marker(0),
            exists|t: int| 0 <= t < ls.len() && ls[t] == marker(0),
        decreases n - j,
    {
        assert(ls[j as int] == lines@[j as int]@);
        if str_eq(lines[j].as_str(), "<<<<<<< ours") {
            let mut msg = owned("File is unmerged at line ");
            push_dec(&mut msg, j as u64);
            proof {
                assert(first_index(ls, marker(0)) == j as int) by {
                    let f = first_index(ls, marker(0));
                    assert(0 <= f < ls.len() && ls[f] == marker(0) && forall|t: int| 0 <= t < f ==> ls[t] != marker(0)) by {
                        assert(0 <= j < ls.len() && ls[j as int] == marker(0) && forall|t: int| 0 <= t < j ==> ls[t] != marker(0));
                    }
                    if f < j {
                    } else if f > j {
                    }
                }
            }
            return Err(msg);
        }
        j = j + 1;
    }
    proof {
        let t = choose|t: int| 0 <= t < ls.len() && ls[t] == marker(0);
        assert(ls[t] != marker(0));
    }
    Err(owned("File is unmerged"))
}

} // verus!
