//! The JSON text of stored records: revisions, whose text is also what
//! their ids are computed from, and the repository record.
use vstd::prelude::*;
use crate::strs::push_char;
use crate::strmap::{StrMap, entries_view};
use crate::vc::file::{EntryType, EntryV, ItemInfo, ItemInfoV};
use crate::vc::revision::{Rev, RevV, TimeStamp};
use crate::vc::repository::{Repo, RepoV, RepoPathsV, StageV};

verus! {

/// A hexadecimal digit, in lower case.
pub open spec fn hex_digit(n: int) -> char {
    if n < 10 {
        ((48 + n) as u8) as char
    } else {
        ((87 + n) as u8) as char
    }
}

/// A decimal digit.
pub open spec fn dec_digit(n: int) -> char {
    ((48 + n) as u8) as char
}

/// The escape of one character inside a JSON string.
pub open spec fn esc_char(c: char) -> Seq<char> {
    if c == '"' {
        seq!['\\', '"']
    } else if c == '\\' {
        seq!['\\', '\\']
    } else if c == '\n' {
        seq!['\\', 'n']
    } else if c == '\r' {
        seq!['\\', 'r']
    } else if c == '\t' {
        seq!['\\', 't']
    } else if c == '\u{8}' {
        seq!['\\', 'b']
    } else if c == '\u{c}' {
        seq!['\\', 'f']
    } else if (c as u32) < 32 {
        seq!['\\', 'u', '0', '0', hex_digit(((c as u32) / 16) as int), hex_digit(((c as u32) % 16) as int)]
    } else {
        seq![c]
    }
}

/// The escape of a string's characters.
pub open spec fn esc(s: Seq<char>) -> Seq<char>
    decreases s.len(),
{
    if s.len() == 0 {
        Seq::empty()
    } else {
        esc(s.drop_last()) + esc_char(s.last())
    }
}

/// A JSON string.
pub open spec fn jstr(s: Seq<char>) -> Seq<char> {
    seq!['"'] + esc(s) + seq!['"']
}

/// An optional string: the string, or `null`.
pub open spec fn jopt(o: Option<Seq<char>>) -> Seq<char> {
    match o {
        Some(s) => jstr(s),
        None => "null"@,
    }
}

/// The decimal digits of a number.
pub open spec fn dec(n: nat) -> Seq<char>
    decreases n,
{
    if n < 10 {
        seq![dec_digit(n as int)]
    } else {
        dec(n / 10).push(dec_digit((n % 10) as int))
    }
}

/// The members `"key":value` of an object, separated by commas.
pub open spec fn jmembers<W>(s: Seq<(Seq<char>, W)>, f: spec_fn(W) -> Seq<char>) -> Seq<char>
    decreases s.len(),
{
    if s.len() == 0 {
        Seq::empty()
    } else if s.len() == 1 {
        jstr(s[0].0) + seq![':'] + f(s[0].1)
    } else {
        jmembers(s.drop_last(), f) + seq![','] + jstr(s.last().0) + seq![':'] + f(s.last().1)
    }
}

/// An entry type: `{"File":id}`, `"Dir"` or `"Other"`.
pub open spec fn jentry(e: EntryV) -> Seq<char> {
    match e {
        EntryV::File(id) => "{\"File\":"@ + jstr(id) + seq!['}'],
        EntryV::Dir => "\"Dir\""@,
        EntryV::Other => "\"Other\""@,
    }
}

/// A tracked item.
pub open spec fn jitem(i: ItemInfoV) -> Seq<char> {
    "{\"name\":"@ + jstr(i.name) + ",\"loc_in_wd\":"@ + jstr(i.loc_in_wd) + ",\"entry\":"@ + jentry(
        i.entry,
    ) + seq!['}']
}

/// A map of tracked items.
pub open spec fn jitems(s: Seq<(Seq<char>, ItemInfoV)>) -> Seq<char> {
    seq!['{'] + jmembers(s, |i: ItemInfoV| jitem(i)) + seq!['}']
}

/// A map of strings.
pub open spec fn jstrs(s: Seq<(Seq<char>, Seq<char>)>) -> Seq<char> {
    seq!['{'] + jmembers(s, |v: Seq<char>| jstr(v)) + seq!['}']
}

/// A time stamp.
pub open spec fn jtime(t: TimeStamp) -> Seq<char> {
    "{\"secs_since_epoch\":"@ + dec(t.secs as nat) + ",\"nanos_since_epoch\":"@ + dec(t.nanos as nat)
        + seq!['}']
}

/// The JSON text of a revision.
pub open spec fn rev_json(r: RevV) -> Seq<char> {
    "{\"rev_id\":"@ + jopt(r.rev_id) + ",\"parent_id\":"@ + jopt(r.parent_id) + ",\"parent_id2\":"@
        + jopt(r.parent_id2) + ",\"user_id\":"@ + jopt(r.user_id) + ",\"time_stamp\":"@ + jtime(
        r.time_stamp,
    ) + ",\"message\":"@ + jopt(r.message) + ",\"manifest\":"@ + jitems(r.manifest) + seq!['}']
}

/// The JSON text of repository paths.
pub open spec fn jpaths(p: RepoPathsV) -> Seq<char> {
    "{\"wd\":"@ + jstr(p.wd) + ",\"root\":"@ + jstr(p.root) + ",\"files\":"@ + jstr(p.files)
        + ",\"revs\":"@ + jstr(p.revs) + ",\"repos\":"@ + jstr(p.repos) + seq!['}']
}

/// The JSON text of a stage.
pub open spec fn jstage(s: StageV) -> Seq<char> {
    "{\"to_add\":"@ + jitems(s.to_add) + ",\"to_remove\":"@ + jitems(s.to_remove) + seq!['}']
}

/// The JSON text of a repository record.
pub open spec fn repo_json(r: RepoV) -> Seq<char> {
    "{\"current_head\":"@ + jopt(r.current_head) + ",\"branch_heads\":"@ + jstrs(r.branch_heads)
        + ",\"paths\":"@ + jpaths(r.paths) + ",\"stage\":"@ + jstage(r.stage) + seq!['}']
}

fn hex_char(n: u32) -> (c: char)
    requires
        n < 16,
    ensures
        c == hex_digit(n as int),
{
    if n < 10 {
        ((48 + n) as u8) as char
    } else {
        ((87 + n) as u8) as char
    }
}

/// Appends the escape of a string.
pub fn push_escaped(out: &mut String, s: &str)
    ensures
        final(out)@ == old(out)@ + esc(s@),
{
    let n = s.unicode_len();
    let mut i: usize = 0;
    proof {
        assert(s@.subrange(0, 0) =~= Seq::<char>::empty());
        assert(old(out)@ + esc(Seq::<char>::empty()) =~= old(out)@);
    }
    while i < n
        invariant
            n == s@.len(),
            i <= n,
            out@ == old(out)@ + esc(s@.subrange(0, i as int)),
        decreases n - i,
    {
        let c = s.get_char(i);
        let ghost before = out@;
        let code = c as u32;
        if c == '"' {
            push_char(out, '\\');
            push_char(out, '"');
        } else if c == '\\' {
            push_char(out, '\\');
            push_char(out, '\\');
        } else if c == '\n' {
            push_char(out, '\\');
            push_char(out, 'n');
        } else if c == '\r' {
            push_char(out, '\\');
            push_char(out, 'r');
        } else if c == '\t' {
            push_char(out, '\\');
            push_char(out, 't');
        } else if c == '\u{8}' {
            push_char(out, '\\');
            push_char(out, 'b');
        } else if c == '\u{c}' {
            push_char(out, '\\');
            push_char(out, 'f');
        } else if code < 32 {
            push_char(out, '\\');
            push_char(out, 'u');
            push_char(out, '0');
            push_char(out, '0');
            push_char(out, hex_char(code / 16));
            push_char(out, hex_char(code % 16));
        } else {
            push_char(out, c);
        }
        proof {
            assert(out@ =~= before + esc_char(c));
            assert(s@.subrange(0, i + 1).drop_last() =~= s@.subrange(0, i as int));
            assert(s@.subrange(0, i + 1).last() == c);
            assert(old(out)@ + esc(s@.subrange(0, i + 1)) =~= before + esc_char(c));
        }
        i = i + 1;
    }
    proof {
        assert(s@.subrange(0, n as int) =~= s@);
    }
}

/// Appends a JSON string.
pub fn push_jstr(out: &mut String, s: &str)
    ensures
        final(out)@ == old(out)@ + jstr(s@),
{
    push_char(out, '"');
    push_escaped(out, s);
    push_char(out, '"');
    assert(final(out)@ =~= old(out)@ + jstr(s@));
}

/// Appends an optional string.
pub fn push_jopt(out: &mut String, o: &Option<String>)
    ensures
        final(out)@ == old(out)@ + jopt(crate::vc::revision::ov(*o)),
{
    match o {
        Some(s) => push_jstr(out, s.as_str()),
        None => out.append("null"),
    }
}

/// Appends the decimal digits of a number.
pub fn push_dec(out: &mut String, n: u64)
    ensures
        final(out)@ == old(out)@ + dec(n as nat),
    decreases n,
{
    if n >= 10 {
        push_dec(out, n / 10);
    }
    let d = (n % 10) as u8;
    push_char(out, (48 + d) as char);
    assert(final(out)@ =~= old(out)@ + dec(n as nat));
}

fn push_lit(out: &mut String, s: &str)
    ensures
        final(out)@ == old(out)@ + s@,
{
    out.append(s);
}

/// Appends an entry type.
pub fn push_jentry(out: &mut String, e: &EntryType)
    ensures
        final(out)@ == old(out)@ + jentry(e@),
{
    match e {
        EntryType::File(id) => {
            push_lit(out, "{\"File\":");
            push_jstr(out, id.as_str());
            push_char(out, '}');
        },
        EntryType::Dir => push_lit(out, "\"Dir\""),
        EntryType::Other => push_lit(out, "\"Other\""),
    }
    assert(final(out)@ =~= old(out)@ + jentry(e@));
}

/// Appends a tracked item.
pub fn push_jitem(out: &mut String, i: &ItemInfo)
    ensures
        final(out)@ == old(out)@ + jitem(i@),
{
    push_lit(out, "{\"name\":");
    push_jstr(out, i.name.as_str());
    push_lit(out, ",\"loc_in_wd\":");
    push_jstr(out, i.loc_in_wd.as_str());
    push_lit(out, ",\"entry\":");
    push_jentry(out, &i.entry);
    push_char(out, '}');
    assert(final(out)@ =~= old(out)@ + jitem(i@));
}

/// Appends a map of tracked items.
pub fn push_jitems(out: &mut String, m: &StrMap<ItemInfo>)
    ensures
        final(out)@ == old(out)@ + jitems(m.ev()),
{
    let ghost f = |i: ItemInfoV| jitem(i);
    push_char(out, '{');
    let ghost start = out@;
    let mut k: usize = 0;
    proof {
        assert(m.ev().subrange(0, 0) =~= Seq::<(Seq<char>, ItemInfoV)>::empty());
        assert(start + jmembers(m.ev().subrange(0, 0), f) =~= start);
    }
    while k < m.entries.len()
        invariant
            k <= m.entries@.len(),
            m.ev() == entries_view(m.entries@),
            out@ == start + jmembers(m.ev().subrange(0, k as int), f),
            f == (|i: ItemInfoV| jitem(i)),
        decreases m.entries@.len() - k,
    {
        let ghost before = out@;
        if k > 0 {
            push_char(out, ',');
        }
        push_jstr(out, m.entries[k].0.as_str());
        push_char(out, ':');
        push_jitem(out, &m.entries[k].1);
        proof {
            let s1 = m.ev().subrange(0, k + 1);
            assert(s1.drop_last() =~= m.ev().subrange(0, k as int));
            assert(s1.last() == m.ev()[k as int]);
            assert(m.ev()[k as int] == (m.entries@[k as int].0@, m.entries@[k as int].1@));
            let e = m.ev()[k as int];
            assert(f(e.1) == jitem(e.1));
            if k == 0 {
                assert(s1.len() == 1);
                assert(s1[0] == e);
                assert(jmembers(s1, f) == jstr(e.0) + seq![':'] + f(e.1));
                assert(before == start);
                assert(out@ =~= start + jmembers(s1, f));
            } else {
                assert(jmembers(s1, f) == jmembers(s1.drop_last(), f) + seq![','] + jstr(e.0) + seq![':'] + f(e.1));
                assert(out@ =~= start + jmembers(s1, f));
            }
        }
        k = k + 1;
    }
    proof {
        assert(m.ev().subrange(0, m.entries@.len() as int) =~= m.ev());
    }
    push_char(out, '}');
    assert(final(out)@ =~= old(out)@ + jitems(m.ev()));
}

/// Appends a map of strings.
pub fn push_jstrs(out: &mut String, m: &StrMap<String>)
    ensures
        final(out)@ == old(out)@ + jstrs(m.ev()),
{
    let ghost f = |v: Seq<char>| jstr(v);
    push_char(out, '{');
    let ghost start = out@;
    let mut k: usize = 0;
    proof {
        assert(m.ev().subrange(0, 0) =~= Seq::<(Seq<char>, Seq<char>)>::empty());
        assert(start + jmembers(m.ev().subrange(0, 0), f) =~= start);
    }
    while k < m.entries.len()
        invariant
            k <= m.entries@.len(),
            m.ev() == entries_view(m.entries@),
            out@ == start + jmembers(m.ev().subrange(0, k as int), f),
            f == (|v: Seq<char>| jstr(v)),
        decreases m.entries@.len() - k,
    {
        let ghost before = out@;
        if k > 0 {
            push_char(out, ',');
        }
        push_jstr(out, m.entries[k].0.as_str());
        push_char(out, ':');
        push_jstr(out, m.entries[k].1.as_str());
        proof {
            let s1 = m.ev().subrange(0, k + 1);
            assert(s1.drop_last() =~= m.ev().subrange(0, k as int));
            assert(s1.last() == m.ev()[k as int]);
            assert(m.ev()[k as int] == (m.entries@[k as int].0@, m.entries@[k as int].1@));
            let e = m.ev()[k as int];
            assert(f(e.1) == jstr(e.1));
            if k == 0 {
                assert(s1.len() == 1);
                assert(s1[0] == e);
                assert(jmembers(s1, f) == jstr(e.0) + seq![':'] + f(e.1));
                assert(before == start);
                assert(out@ =~= start + jmembers(s1, f));
            } else {
                assert(jmembers(s1, f) == jmembers(s1.drop_last(), f) + seq![','] + jstr(e.0) + seq![':'] + f(e.1));
                assert(out@ =~= start + jmembers(s1, f));
            }
        }
        k = k + 1;
    }
    proof {
        assert(m.ev().subrange(0, m.entries@.len() as int) =~= m.ev());
    }
    push_char(out, '}');
    assert(final(out)@ =~= old(out)@ + jstrs(m.ev()));
}

/// The JSON text of a revision.
pub fn rev_to_json(r: &Rev) -> (s: String)
    ensures
        s@ == rev_json(r@),
{
    let mut out = String::new();
    push_lit(&mut out, "{\"rev_id\":");
    push_jopt(&mut out, &r.rev_id);
    push_lit(&mut out, ",\"parent_id\":");
    push_jopt(&mut out, &r.parent_id);
    push_lit(&mut out, ",\"parent_id2\":");
    push_jopt(&mut out, &r.parent_id2);
    push_lit(&mut out, ",\"user_id\":");
    push_jopt(&mut out, &r.user_id);
    push_lit(&mut out, ",\"time_stamp\":");
    push_lit(&mut out, "{\"secs_since_epoch\":");
    push_dec(&mut out, r.time_stamp.secs);
    push_lit(&mut out, ",\"nanos_since_epoch\":");
    push_dec(&mut out, r.time_stamp.nanos as u64);
    push_char(&mut out, '}');
    push_lit(&mut out, ",\"message\":");
    push_jopt(&mut out, &r.message);
    push_lit(&mut out, ",\"manifest\":");
    push_jitems(&mut out, &r.manifest);
    push_char(&mut out, '}');
    assert(out@ =~= rev_json(r@));
    out
}

fn push_jpaths(out: &mut String, p: &crate::vc::repository::RepoPaths)
    ensures
        final(out)@ == old(out)@ + jpaths(p@),
{
    push_lit(out, "{\"wd\":");
    push_jstr(out, p.wd.as_str());
    push_lit(out, ",\"root\":");
    push_jstr(out, p.root.as_str());
    push_lit(out, ",\"files\":");
    push_jstr(out, p.files.as_str());
    push_lit(out, ",\"revs\":");
    push_jstr(out, p.revs.as_str());
    push_lit(out, ",\"repos\":");
    push_jstr(out, p.repos.as_str());
    push_char(out, '}');
    assert(final(out)@ =~= old(out)@ + jpaths(p@));
}

fn push_jstage(out: &mut String, st: &crate::vc::repository::Stage)
    ensures
        final(out)@ == old(out)@ + jstage(st@),
{
    push_lit(out, "{\"to_add\":");
    push_jitems(out, &st.to_add);
    push_lit(out, ",\"to_remove\":");
    push_jitems(out, &st.to_remove);
    push_char(out, '}');
    assert(final(out)@ =~= old(out)@ + jstage(st@));
}

/// The JSON text of a repository record.
pub fn repo_to_json(r: &Repo) -> (s: String)
    ensures
        s@ == repo_json(r@),
{
    let mut out = String::new();
    push_lit(&mut out, "{\"current_head\":");
    push_jopt(&mut out, &r.current_head);
    push_lit(&mut out, ",\"branch_heads\":");
    push_jstrs(&mut out, &r.branch_heads);
    push_lit(&mut out, ",\"paths\":");
    push_jpaths(&mut out, &r.paths);
    push_lit(&mut out, ",\"stage\":");
    push_jstage(&mut out, &r.stage);
    push_char(&mut out, '}');
    assert(out@ =~= repo_json(r@));
    out
}

} // verus!
