//! Commands that only read a repository: heads, log and status.
use vstd::prelude::*;
use crate::vc::repository::{Repo, RepoV};
use crate::vc::repository::store::{load, spec_load, spec_get_rev, spec_current_head, spec_file_content};
use crate::vc::revision::{Rev, RevV, TimeStamp, or_default, spec_log, time_in_range, LAST_WRITABLE_SECOND};
use crate::dsr::{Disk, DiskV};
use crate::ui::{Errors, ErrV, err_v, static_e};
use crate::strmap::{StrMap, seq_to_map};
use crate::strs::{owned, concat, concat3, str_eq};
use crate::path::views;
use crate::outside::date_time_text;
pub use crate::cmd_interface::status::status;

verus! {

/// The line of `heads` for a branch: `alias:id`, starred for the branch
/// that is checked out.
pub open spec fn head_line(alias: Seq<char>, id: Seq<char>, cur: Option<Seq<char>>) -> Seq<char> {
    if cur == Some(alias) {
        "*"@ + alias + ":"@ + id
    } else {
        alias + ":"@ + id
    }
}

/// The lines of `heads`, one per branch in the repository's order.
pub open spec fn head_lines(s: Seq<(Seq<char>, Seq<char>)>, cur: Option<Seq<char>>) -> Seq<Seq<char>> {
    s.map_values(|e: (Seq<char>, Seq<char>)| head_line(e.0, e.1, cur))
}

/// The branches of the repository that holds `wd`, one line each, the
/// checked-out one starred. Fails when there is no branch, as in a
/// repository that has just been made.
pub fn heads(disk: &Disk, wd: &str) -> (r: Result<Vec<String>, Errors>)
    requires
        disk.wf(),
    ensures
        match spec_load(disk@, wd@) {
            Err(e) => r matches Err(x) && err_v(x) == e,
            Ok(repo) => if repo.branch_heads.len() == 0 {
                r matches Err(x) && err_v(x) == ErrV::Static("No heads found"@)
            } else {
                r matches Ok(v) && views(v@) == head_lines(repo.branch_heads, repo.current_head)
            },
        },
{
    let load = load(disk, wd)?;
    let head = load.get_heads();
    let cur_head = load.get_current_head_alias();
    let ghost cur = load@.current_head;
    let mut res: Vec<String> = Vec::new();
    let n = head.entries.len();
    let mut i: usize = 0;
    while i < n
        invariant
            n == head.ev().len(),
            i <= n,
            views(res@) == head_lines(head.ev(), cur).subrange(0, i as int),
            cur_head matches Some(c) ==> cur == Some(c@),
            cur_head is None ==> cur is None,
        decreases n - i,
    {
        let key = head.entries[i].0.as_str();
        let value = head.entries[i].1.as_str();
        let starred = match cur_head {
            Some(c) => str_eq(key, c),
            None => false,
        };
        let line = if starred {
            let marked = concat("*", key);
            concat3(marked.as_str(), ":", value)
        } else {
            concat3(key, ":", value)
        };
        let ghost r0 = res@;
        res.push(line);
        proof {
            assert(head.ev()[i as int] == (key@, value@));
            assert(views(res@) =~= views(r0).push(line@));
            assert(head_lines(head.ev(), cur).subrange(0, i + 1) =~= head_lines(head.ev(), cur).subrange(
                0,
                i as int,
            ).push(head_line(key@, value@, cur)));
        }
        i = i + 1;
    }
    proof {
        assert(head_lines(head.ev(), cur).subrange(0, n as int) =~= head_lines(head.ev(), cur));
    }
    if head.entries.len() == 0 {
        Err(Errors::Errstatic("No heads found"))
    } else {
        Ok(res)
    }
}

/// The revision `j` first-parent steps back from `h`, while each step can
/// be read.
pub open spec fn nth_rev(d: DiskV, r: RepoV, h: RevV, j: nat) -> Option<RevV>
    decreases j,
{
    if j == 0 {
        Some(h)
    } else {
        match nth_rev(d, r, h, (j - 1) as nat) {
            Some(rv) => match rv.parent_id {
                Some(p) => match spec_get_rev(d, r, p) {
                    Ok(x) => Some(x),
                    Err(_) => None,
                },
                None => None,
            },
            None => None,
        }
    }
}

/// Once a step back cannot be taken, none further can.
proof fn lemma_nth_none(d: DiskV, r: RepoV, h: RevV, s: nat, j: nat)
    requires
        nth_rev(d, r, h, s) is None,
        s <= j,
    ensures
        nth_rev(d, r, h, j) is None,
    decreases j - s,
{
    if j > s {
        lemma_nth_none(d, r, h, s, (j - 1) as nat);
    }
}

/// The first-parent chain from `h` ends within `k` revisions, all of which
/// can be read and have a time that can be written, and `log` may walk that far: one revision always, more only
/// up to the number of entries on the disk.
pub open spec fn log_reaches(d: DiskV, r: RepoV, h: RevV, bound: nat) -> bool {
    exists|k: nat| #![trigger chain_ends(d, r, h, (k - 1) as nat)] 1 <= k && (k == 1 || k <= bound) && chain_ends(d, r, h, (k - 1) as nat)
        && times_written(d, r, h, k)
}

/// The first `k` revisions of the first-parent chain from `h` can be read,
/// and each has a time that can be written as a date.
pub open spec fn times_written(d: DiskV, r: RepoV, h: RevV, k: nat) -> bool {
    forall|j: nat| j < k ==> (#[trigger] nth_rev(d, r, h, j) matches Some(x) && time_in_range(x.time_stamp))
}

/// The block of `log` lines at position `j` describes `rv`: author, id,
/// message, its time written as a local date and time, and an empty line.
pub open spec fn log_block(v: Seq<Seq<char>>, j: int, rv: RevV) -> bool {
    &&& v[5 * j] == "user: "@ + or_default(rv.user_id, "Unknown"@)
    &&& v[5 * j + 1] == "id: "@ + or_default(rv.rev_id, Seq::empty())
    &&& v[5 * j + 2] == "message: "@ + or_default(rv.message, Seq::empty())
    &&& v[5 * j + 3].len() >= 6 && v[5 * j + 3].subrange(0, 6) == "time: "@
    &&& date_time_text(rv.time_stamp, v[5 * j + 3].subrange(6, v[5 * j + 3].len() as int))
    &&& v[5 * j + 4] == Seq::<char>::empty()
}

/// A block stays as it was when the lines before and in it are kept.
proof fn lemma_block_kept(v0: Seq<Seq<char>>, v1: Seq<Seq<char>>, j: int, rv: RevV)
    requires
        0 <= j,
        5 * j + 5 <= v0.len(),
        v0.len() <= v1.len(),
        forall|i: int| 0 <= i < v0.len() ==> v1[i] == v0[i],
        log_block(v0, j, rv),
    ensures
        log_block(v1, j, rv),
{
    assert(v1[5 * j] == v0[5 * j]);
    assert(v1[5 * j + 1] == v0[5 * j + 1]);
    assert(v1[5 * j + 2] == v0[5 * j + 2]);
    assert(v1[5 * j + 3] == v0[5 * j + 3]);
    assert(v1[5 * j + 4] == v0[5 * j + 4]);
}

/// Block `j` of `v` describes the revision `j` steps back from `h`.
pub open spec fn block_at(d: DiskV, r: RepoV, h: RevV, v: Seq<Seq<char>>, j: nat) -> bool {
    match nth_rev(d, r, h, j) {
        Some(rv) => log_block(v, j as int, rv),
        None => false,
    }
}

/// The revision `k` steps back from `h` can be read and has no parent.
pub open spec fn chain_ends(d: DiskV, r: RepoV, h: RevV, k: nat) -> bool {
    match nth_rev(d, r, h, k) {
        Some(last) => last.parent_id is None,
        None => false,
    }
}

fn log_value(log: &StrMap<String>, key: &str) -> (r: String)
    requires
        log.wf(),
    ensures
        log.m().contains_key(key@) ==> r@ == log.m()[key@],
{
    match log.get(key) {
        Some(v) => v.clone(),
        None => String::new(),
    }
}

/// Whether a time can be written as a date.
fn time_fits(t: TimeStamp) -> (r: bool)
    ensures
        r == time_in_range(t),
{
    t.secs <= LAST_WRITABLE_SECOND && (t.nanos / 1_000_000_000) as u64 <= LAST_WRITABLE_SECOND - t.secs
}

fn push_block(out: &mut Vec<String>, rev: &Rev)
    requires
        time_in_range(rev.time_stamp),
    ensures
        final(out)@.len() == old(out)@.len() + 5,
        final(out)@.subrange(0, old(out)@.len() as int) == old(out)@,
        log_block(views(final(out)@), (old(out)@.len() / 5) as int, rev@) || old(out)@.len() % 5 != 0,
{
    let log = rev.get_log();
    proof {
        reveal_strlit("user");
        reveal_strlit("id");
        reveal_strlit("message");
        reveal_strlit("time");
        assert("user"@ =~= seq!['u', 's', 'e', 'r']);
        assert("id"@ =~= seq!['i', 'd']);
        assert("message"@ =~= seq!['m', 'e', 's', 's', 'a', 'g', 'e']);
        assert("time"@ =~= seq!['t', 'i', 'm', 'e']);
    }
    let user = log_value(&log, "user");
    let id = log_value(&log, "id");
    let message = log_value(&log, "message");
    let time = log_value(&log, "time");
    let ghost o0 = out@;
    out.push(concat("user: ", user.as_str()));
    out.push(concat("id: ", id.as_str()));
    out.push(concat("message: ", message.as_str()));
    let t = concat("time: ", time.as_str());
    proof {
        reveal_strlit("time: ");
        assert(t@.subrange(0, 6) =~= "time: "@);
        assert(t@.subrange(6, t@.len() as int) =~= time@);
    }
    out.push(t);
    out.push(String::new());
    proof {
        let j: int = (o0.len() / 5) as int;
        let b = o0.len() as int;
        let v = views(out@);
        assert(log.m() == spec_log(rev@, log.m()[seq!['t', 'i', 'm', 'e']]));
        reveal_strlit("user: ");
        reveal_strlit("id: ");
        reveal_strlit("message: ");
        reveal_strlit("Unknown");
        assert(v[b] == out@[b]@);
        assert(v[b + 1] == out@[b + 1]@);
        assert(v[b + 2] == out@[b + 2]@);
        assert(v[b + 3] == out@[b + 3]@);
        assert(v[b + 4] == out@[b + 4]@);
        assert(user@ == or_default(rev@.user_id, "Unknown"@));
        if o0.len() % 5 == 0 {
            assert(5 * j == b);
        }
        assert(out@.subrange(0, o0.len() as int) =~= o0);
    }
}

/// The log of the repository that holds `wd`: a block of lines for the
/// head of the checked-out branch and for each revision reached from it by
/// first parents. A chain longer than the entries on the disk can only come
/// from a cycle, and fails.
#[verifier::rlimit(40)]
#[verifier::spinoff_prover]
pub fn log(disk: &Disk, wd: &str) -> (r: Result<Option<Vec<String>>, Errors>)
    requires
        disk.wf(),
    ensures
        match spec_load(disk@, wd@) {
            Err(e) => r matches Err(x) && err_v(x) == e,
            Ok(repo) => match spec_current_head(disk@, repo) {
                Err(e) => r matches Err(x) && err_v(x) == e,
                Ok(h) => (r is Ok <==> log_reaches(disk@, repo, h, disk.nodes@.len() as nat)) && (r matches Ok(o) ==> (o matches Some(v) && exists|k: nat| #![trigger chain_ends(disk@, repo, h, (k - 1) as nat)]
                    k >= 1 && views(v@).len() == 5 * k && chain_ends(disk@, repo, h, (k - 1) as nat) && forall|j: nat|
                        j < k ==> #[trigger] block_at(disk@, repo, h, views(v@), j))),
            },
        },
{
    let load = load(disk, wd)?;
    let current_head = load.get_current_head(disk)?;
    let ghost h = current_head@;
    if !time_fits(current_head.time_stamp) {
        proof {
            assert(nth_rev(disk@, load@, h, 0) == Some(h));
            assert(!log_reaches(disk@, load@, h, disk.nodes@.len() as nat)) by {
                if log_reaches(disk@, load@, h, disk.nodes@.len() as nat) {
                    let k = choose|k: nat| #![trigger chain_ends(disk@, load@, h, (k - 1) as nat)] 1 <= k && (k == 1 || k <= disk.nodes@.len()) && chain_ends(disk@, load@, h, (k - 1) as nat) && times_written(disk@, load@, h, k);
                    assert(nth_rev(disk@, load@, h, 0) matches Some(x) && time_in_range(x.time_stamp));
                }
            }
        }
        return Err(Errors::Errstatic("revision time is out of range"));
    }
    let mut lines: Vec<String> = Vec::new();
    push_block(&mut lines, &current_head);
    let mut new_rev = current_head;
    let bound = disk.nodes.len();
    let mut steps: usize = 1;
    proof {
        assert(nth_rev(disk@, load@, h, 0) == Some(h));
        assert(times_written(disk@, load@, h, 1));
    }
    while new_rev.get_parent_id().is_some()
        invariant
            disk.wf(),
            load@.wf(),
            spec_load(disk@, wd@) == Ok::<RepoV, ErrV>(load@),
            spec_current_head(disk@, load@) == Ok::<RevV, ErrV>(h),
            1 <= steps,
            views(lines@).len() == 5 * steps,
            nth_rev(disk@, load@, h, (steps - 1) as nat) == Some(new_rev@),
            forall|j: nat| j < steps ==> #[trigger] block_at(disk@, load@, h, views(lines@), j),
            forall|j: nat| j + 1 < steps ==> (#[trigger] nth_rev(disk@, load@, h, j) matches Some(x) && x.parent_id is Some),
            times_written(disk@, load@, h, steps as nat),
            bound == disk.nodes@.len(),
            steps == 1 || steps <= bound,
        decreases bound + 1 - steps,
    {
        if steps >= bound {
            proof {
                assert(!log_reaches(disk@, load@, h, bound as nat)) by {
                    if log_reaches(disk@, load@, h, bound as nat) {
                        let k = choose|k: nat| #![trigger chain_ends(disk@, load@, h, (k - 1) as nat)] 1 <= k && (k == 1 || k <= bound) && chain_ends(disk@, load@, h, (k - 1) as nat) && times_written(disk@, load@, h, k);
                        if k <= steps {
                            let j = (k - 1) as nat;
                            if j + 1 < steps {
                                assert(nth_rev(disk@, load@, h, j) matches Some(x) && x.parent_id is Some);
                            }
                        }
                    }
                }
            }
            return Err(Errors::Errstatic("revision history has a cycle"));
        }
        let p = new_rev.get_parent_id().unwrap();
        let next = match load.get_rev(disk, p) {
            Ok(x) => x,
            Err(e) => {
                proof {
                    assert(nth_rev(disk@, load@, h, steps as nat) is None);
                    assert(!log_reaches(disk@, load@, h, bound as nat)) by {
                        if log_reaches(disk@, load@, h, bound as nat) {
                            let k = choose|k: nat| #![trigger chain_ends(disk@, load@, h, (k - 1) as nat)] 1 <= k && (k == 1 || k <= bound) && chain_ends(disk@, load@, h, (k - 1) as nat) && times_written(disk@, load@, h, k);
                            let j = (k - 1) as nat;
                            if j >= steps {
                                lemma_nth_none(disk@, load@, h, steps as nat, j);
                            } else if j + 1 < steps {
                                assert(nth_rev(disk@, load@, h, j) matches Some(x) && x.parent_id is Some);
                            }
                        }
                    }
                }
                return Err(e);
            },
        };
        if !time_fits(next.time_stamp) {
            proof {
                assert(nth_rev(disk@, load@, h, steps as nat) == Some(next@));
                assert(!log_reaches(disk@, load@, h, bound as nat)) by {
                    if log_reaches(disk@, load@, h, bound as nat) {
                        let k = choose|k: nat| #![trigger chain_ends(disk@, load@, h, (k - 1) as nat)] 1 <= k && (k == 1 || k <= bound) && chain_ends(disk@, load@, h, (k - 1) as nat) && times_written(disk@, load@, h, k);
                        let j = (k - 1) as nat;
                        if j + 1 < steps {
                            assert(nth_rev(disk@, load@, h, j) matches Some(x) && x.parent_id is Some);
                        } else if j + 1 == steps {
                            assert(nth_rev(disk@, load@, h, j) == Some(new_rev@));
                        } else {
                            assert(nth_rev(disk@, load@, h, steps as nat) matches Some(x) && time_in_range(x.time_stamp));
                        }
                    }
                }
            }
            return Err(Errors::Errstatic("revision time is out of range"));
        }
        let ghost l0 = lines@;
        push_block(&mut lines, &next);
        proof {
            assert(nth_rev(disk@, load@, h, steps as nat) == Some(next@));
            assert((l0.len() as int) / 5 == steps as int);
            assert forall|j: nat| j < steps + 1 implies #[trigger] block_at(disk@, load@, h, views(lines@), j) by {
                if j < steps {
                    assert(block_at(disk@, load@, h, views(l0), j));
                    let rv = nth_rev(disk@, load@, h, j)->0;
                    lemma_block_kept(views(l0), views(lines@), j as int, rv);
                }
            }
        }
        proof {
            assert forall|j: nat| j < steps + 1 implies (#[trigger] nth_rev(disk@, load@, h, j) matches Some(x) && time_in_range(x.time_stamp)) by {
                if j < steps {
                    assert(times_written(disk@, load@, h, steps as nat));
                }
            }
        }
        new_rev = next;
        steps = steps + 1;
    }
    proof {
        assert(chain_ends(disk@, load@, h, (steps - 1) as nat));
        assert(log_reaches(disk@, load@, h, bound as nat)) by {
            let k = steps as nat;
            assert(chain_ends(disk@, load@, h, (k - 1) as nat));
        }
    }
    Ok(Some(lines))
}

} // verus!
