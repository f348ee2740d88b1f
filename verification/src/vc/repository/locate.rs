//! Finding a repository from a path, paths relative to its working
//! directory, and content ids that do not collide in a store.
use vstd::prelude::*;
use crate::dsr::{Disk, DiskV, Key, is_path_valid, read_file_as_string, spec_is_path_valid, spec_read_file, get_wd_path};
use crate::path::{spec_path_compose, path_compose, spec_get_name, get_name, spec_get_parent_name, get_parent_name, is_name, lemma_name_compose, has_parent, trim_back, last_slash, lemma_trim_back_prefix, lemma_last_slash};
use crate::dsr::walk::lemma_key_compose;
use crate::strs::{owned, push_char, str_eq};
use crate::strmap::lemma_seq_to_map;
use crate::vc::revision::ov;
use crate::outside::{sha, sha256_hex, is_lower_hex};
use crate::vc::repository::dvcs_name;

verus! {

/// The nearest directory, from `wd` up through its parents, that holds a
/// repository; none when no such directory is found before the path stops
/// getting shorter.
pub open spec fn spec_check_wd(d: DiskV, wd: Seq<char>) -> Option<Seq<char>>
    decreases wd.len(),
{
    if spec_is_path_valid(d, spec_path_compose(wd, dvcs_name())) {
        Some(wd)
    } else {
        let parent = spec_get_parent_name(wd);
        if parent.len() < wd.len() {
            spec_check_wd(d, parent)
        } else {
            None
        }
    }
}

/// Finds the working directory of the repository that holds a path: the path
/// itself or its nearest ancestor with a `.dvcs` entry.
pub fn check_wd(disk: &Disk, wd_path: &str) -> (r: Option<String>)
    requires
        disk.wf(),
    ensures
        ov(r) == spec_check_wd(disk@, wd_path@),
    decreases wd_path@.len(),
{
    let root = path_compose(wd_path, ".dvcs");
    proof {
        reveal_strlit(".dvcs");
        assert(".dvcs"@ =~= dvcs_name());
    }
    if is_path_valid(disk, root.as_str()) {
        return Some(owned(wd_path));
    }
    let parent = get_parent_name(wd_path).unwrap();
    if parent.unicode_len() < wd_path.unicode_len() {
        check_wd(disk, parent.as_str())
    } else {
        None
    }
}

/// What `PathBuf::pop` leaves of a path is a prefix of it.
proof fn lemma_parent_prefix(p: Seq<char>)
    ensures
        spec_get_parent_name(p).len() <= p.len(),
        p.subrange(0, spec_get_parent_name(p).len() as int) == spec_get_parent_name(p),
{
    lemma_trim_back_prefix(p);
    if has_parent(p) {
        let t = trim_back(p);
        if t != seq!['.'] {
            lemma_last_slash(t);
            let j = last_slash(t);
            if j >= 0 {
                let u = t.subrange(0, j + 1);
                lemma_trim_back_prefix(u);
                assert(p.subrange(0, trim_back(u).len() as int) =~= trim_back(u));
            }
        }
    }
}

/// The working directory found for a path is a prefix of it.
proof fn lemma_check_wd_prefix(d: DiskV, p: Seq<char>)
    ensures
        spec_check_wd(d, p) matches Some(root) ==> root.len() <= p.len() && p.subrange(0, root.len() as int) == root,
    decreases p.len(),
{
    if !spec_is_path_valid(d, spec_path_compose(p, dvcs_name())) {
        let parent = spec_get_parent_name(p);
        if parent.len() < p.len() {
            lemma_check_wd_prefix(d, parent);
            lemma_parent_prefix(p);
            if spec_check_wd(d, parent) is Some {
                let root = spec_check_wd(d, parent)->Some_0;
                assert(p.subrange(0, root.len() as int) =~= parent.subrange(0, root.len() as int));
            }
        }
    } else {
        assert(p.subrange(0, p.len() as int) =~= p);
    }
}

/// `s` without its leading `/` and `\` characters.
pub open spec fn trim_lead(s: Seq<char>) -> Seq<char>
    decreases s.len(),
{
    if s.len() > 0 && (s[0] == '/' || s[0] == '\\') {
        trim_lead(s.drop_first())
    } else {
        s
    }
}

/// The path of `p` relative to the working directory of its repository: what
/// follows that directory's path in `p`, without leading separators.
pub open spec fn spec_get_rel_path(d: DiskV, p: Seq<char>) -> Option<Seq<char>> {
    match spec_check_wd(d, p) {
        None => None,
        Some(root) => Some(trim_lead(p.subrange(root.len() as int, p.len() as int))),
    }
}

fn trim_lead_exec(s: &str) -> (r: &str)
    ensures
        r@ == trim_lead(s@),
{
    let n = s.unicode_len();
    let mut k: usize = 0;
    assert(s@.subrange(0, n as int) =~= s@);
    while k < n && (s.get_char(k) == '/' || s.get_char(k) == '\\')
        invariant
            n == s@.len(),
            k <= n,
            trim_lead(s@) == trim_lead(s@.subrange(k as int, n as int)),
        decreases n - k,
    {
        assert(s@.subrange(k as int, n as int).drop_first() =~= s@.subrange(k + 1, n as int));
        k = k + 1;
    }
    s.substring_char(k, n)
}

/// The path of `abs_path` relative to the working directory of the
/// repository that holds it.
pub fn get_rel_path(disk: &Disk, abs_path: &str) -> (r: Option<String>)
    requires
        disk.wf(),
    ensures
        ov(r) == spec_get_rel_path(disk@, abs_path@),
{
    let root = check_wd(disk, abs_path)?;
    proof {
        lemma_check_wd_prefix(disk@, abs_path@);
    }
    let n = abs_path.unicode_len();
    let rest = abs_path.substring_char(root.unicode_len(), n);
    Some(owned(trim_lead_exec(rest)))
}

/// A path of the repository's working directory, found from the process's
/// working directory, joined with a relative path.
pub open spec fn spec_get_abs_path(d: DiskV, rel_path: Seq<char>) -> Option<Seq<char>> {
    match spec_check_wd(d, d.cwd) {
        Some(wd) => Some(spec_path_compose(wd, rel_path)),
        None => None,
    }
}

/// Joins a path relative to the repository's working directory to that
/// directory, found from the process's working directory.
pub fn get_abs_path(disk: &Disk, rel_path: &str) -> (r: Option<String>)
    requires
        disk.wf(),
    ensures
        ov(r) == spec_get_abs_path(disk@, rel_path@),
{
    let cwd = get_wd_path(disk);
    let wd = check_wd(disk, cwd.as_str())?;
    Some(path_compose(wd.as_str(), rel_path))
}

/// `n` zeros.
pub open spec fn zeros(n: nat) -> Seq<char> {
    Seq::new(n, |i: int| '0')
}

/// The text stored at a path, or nothing when it cannot be read.
pub open spec fn text_or_empty(d: DiskV, p: Seq<char>) -> Seq<char> {
    match spec_read_file(d, p) {
        Ok(t) => t,
        Err(_) => Seq::empty(),
    }
}

/// Whether the id `s` may be used for `data` in the store at `pool`: nothing
/// is stored under it, or the same data.
pub open spec fn slot_fits(d: DiskV, data: Seq<char>, pool: Seq<char>, s: Seq<char>) -> bool {
    !spec_is_path_valid(d, spec_path_compose(pool, s)) || text_or_empty(d, spec_path_compose(pool, s)) == data
}

/// The digest of `data` followed by `k` zeros is the first candidate id that
/// fits.
pub open spec fn first_fit(d: DiskV, data: Seq<char>, pool: Seq<char>, k: nat) -> bool {
    &&& slot_fits(d, data, pool, sha256_hex(data) + zeros(k))
    &&& forall|j: nat| j < k ==> !slot_fits(d, data, pool, #[trigger] (sha256_hex(data) + zeros(j)))
}

/// The id under which `data` is stored in the store at `pool`: its digest,
/// followed by as few zeros as make it fit.
pub open spec fn spec_checked_sha(d: DiskV, data: Seq<char>, pool: Seq<char>) -> Seq<char> {
    sha256_hex(data) + zeros(choose|k: nat| first_fit(d, data, pool, k))
}

proof fn lemma_first_fit_unique(d: DiskV, data: Seq<char>, pool: Seq<char>, k: nat)
    requires
        first_fit(d, data, pool, k),
    ensures
        spec_checked_sha(d, data, pool) == sha256_hex(data) + zeros(k),
{
    let c = choose|k: nat| first_fit(d, data, pool, k);
    assert(first_fit(d, data, pool, c));
    if c < k {
        assert(!slot_fits(d, data, pool, sha256_hex(data) + zeros(c)));
    } else if k < c {
        assert(!slot_fits(d, data, pool, sha256_hex(data) + zeros(k)));
    }
}

/// The id under which `data` is stored in the store at `pool`: its SHA-256
/// digest, with zeros appended while another text is stored under the id.
pub fn checked_sha(disk: &Disk, data: &str, matching_pool_path: &str) -> (r: String)
    requires
        disk.wf(),
    ensures
        r@ == spec_checked_sha(disk@, data@, matching_pool_path@),
        slot_fits(disk@, data@, matching_pool_path@, r@),
        is_name(r@),
{
    let mut sha_id = sha(data);
    let ghost h = sha_id@;
    let ghost kp = disk@.key(matching_pool_path@);
    let ghost mut seen: Set<Key> = Set::empty();
    let ghost mut k: nat = 0;
    proof {
        lemma_seq_to_map(crate::dsr::nev(disk.nodes@));
        assert(h + zeros(0) =~= h);
    }
    loop
        invariant
            disk.wf(),
            h == sha256_hex(data@),
            h.len() == 64,
            sha_id@ == h + zeros(k),
            forall|i: int| 0 <= i < sha_id@.len() ==> is_lower_hex(#[trigger] sha_id@[i]),
            forall|j: nat| j < k ==> !slot_fits(disk@, data@, matching_pool_path@, #[trigger] (h + zeros(j))),
            kp == disk@.key(matching_pool_path@),
            seen.finite(),
            seen.subset_of(disk@.nodes.dom()),
            seen.len() == k,
            forall|q: Key| seen.contains(q) ==> q.len() > 0 && q.last().len() < sha_id@.len(),
            disk@.nodes.dom().finite(),
            disk@.nodes.dom().len() == disk.nodes@.len(),
        ensures
            h == sha256_hex(data@),
            h.len() == 64,
            sha_id@ == h + zeros(k),
            forall|i: int| 0 <= i < sha_id@.len() ==> is_lower_hex(#[trigger] sha_id@[i]),
            forall|j: nat| j < k ==> !slot_fits(disk@, data@, matching_pool_path@, #[trigger] (h + zeros(j))),
            slot_fits(disk@, data@, matching_pool_path@, sha_id@),
        decreases disk.nodes@.len() - k,
    {
        proof {
            assert(is_name(sha_id@)) by {
                assert(!sha_id@.contains('/')) by {
                    if sha_id@.contains('/') {
                        let i = choose|i: int| 0 <= i < sha_id@.len() && sha_id@[i] == '/';
                        assert(is_lower_hex(sha_id@[i]));
                    }
                }
                assert(sha_id@ != seq!['.']);
                assert(sha_id@ != seq!['.', '.']);
            }
            lemma_key_compose(disk@.cwd, matching_pool_path@, sha_id@);
            lemma_name_compose(matching_pool_path@, sha_id@);
        }
        let slot = path_compose(matching_pool_path, sha_id.as_str());
        if !is_path_valid(disk, slot.as_str()) {
            break;
        }
        let compare_content = match read_file_as_string(disk, slot.as_str()) {
            Ok(t) => t,
            Err(_) => String::new(),
        };
        if str_eq(compare_content.as_str(), data) {
            break;
        }
        proof {
            let q = kp.push(sha_id@);
            assert(disk@.nodes.dom().contains(q));
            assert(!seen.contains(q));
            vstd::set_lib::lemma_len_subset(seen.insert(q), disk@.nodes.dom());
            seen = seen.insert(q);
            assert(h + zeros(k + 1) =~= (h + zeros(k)).push('0'));
            k = k + 1;
        }
        push_char(&mut sha_id, '0');
    }
    proof {
        assert(first_fit(disk@, data@, matching_pool_path@, k));
        lemma_first_fit_unique(disk@, data@, matching_pool_path@, k);
        assert(!sha_id@.contains('/')) by {
            if sha_id@.contains('/') {
                let i = choose|i: int| 0 <= i < sha_id@.len() && sha_id@[i] == '/';
                assert(is_lower_hex(sha_id@[i]));
            }
        }
        assert(sha_id@ != seq!['.']);
        assert(sha_id@ != seq!['.', '.']);
    }
    sha_id
}

} // verus!
