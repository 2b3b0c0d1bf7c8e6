use vstd::prelude::*;
use crate::ssh_config::SshHost;
use crate::text::{chars_of, decimal, digit_char};
use crate::sync::{lemma_next_index_of, next_index_of};

verus! {

broadcast use vstd::seq_lib::group_to_multiset_ensures;

/// An entry of a remote directory listing.
#[derive(Debug)]
pub struct RemoteEntry {
    pub name: String,
    pub path: String,
    pub is_dir: bool,
    pub size: u64,
    pub modified: u64,
}

pub struct RemoteEntryView {
    pub name: Seq<char>,
    pub path: Seq<char>,
    pub is_dir: bool,
    pub size: u64,
    pub modified: u64,
}

impl View for RemoteEntry {
    type V = RemoteEntryView;

    open spec fn view(&self) -> RemoteEntryView {
        RemoteEntryView {
            name: self.name@,
            path: self.path@,
            is_dir: self.is_dir,
            size: self.size,
            modified: self.modified,
        }
    }
}

pub open spec fn entries_view(s: Seq<RemoteEntry>) -> Seq<RemoteEntryView> {
    s.map_values(|e: RemoteEntry| e@)
}

/// What the SFTP server reports of one directory entry: its path, whether it
/// is a directory, and its size and modification time when known.
#[derive(Debug)]
pub struct RemoteStat {
    pub path: String,
    pub is_dir: bool,
    pub size: Option<u64>,
    pub mtime: Option<u64>,
}

/// Whether ssh-agent runs and how many identities it holds.
#[derive(Clone, Copy, Debug, PartialEq, Eq, Structural)]
pub struct AgentStatus {
    pub agent_running: bool,
    pub identity_count: usize,
}

/// The agent's status from what probing it gave: an SSH session could be
/// made, its agent handle obtained and connected, and (when listing worked)
/// the number of identities. Any failure up to the connection means no
/// agent; a failed listing counts as no identities.
pub fn agent_status(
    session_ok: bool,
    agent_ok: bool,
    connected: bool,
    identity_count: Option<usize>,
) -> (r: AgentStatus)
    ensures
        r.agent_running == (session_ok && agent_ok && connected),
        r.identity_count == if session_ok && agent_ok && connected {
            match identity_count {
                Some(n) => n,
                None => 0,
            }
        } else {
            0
        },
{
    if !session_ok || !agent_ok || !connected {
        return AgentStatus { agent_running: false, identity_count: 0 };
    }
    let count = match identity_count {
        Some(n) => n,
        None => 0,
    };
    AgentStatus { agent_running: true, identity_count: count }
}

/// The pieces of a path between `/` separators, from `pos` on.
pub open spec fn segments_from(p: Seq<char>, pos: int) -> Seq<Seq<char>>
    decreases p.len() - pos,
{
    if pos < 0 || pos > p.len() {
        seq![]
    } else {
        let k = next_index_of(p, '/', pos);
        proof {
            lemma_next_index_of(p, '/', pos);
        }
        if k >= p.len() {
            seq![p.subrange(pos, p.len() as int)]
        } else {
            seq![p.subrange(pos, k)] + segments_from(p, k + 1)
        }
    }
}

/// The components of a path as `Path::components` gives them on Unix, but
/// for the root: the pieces between `/` that are neither empty nor `.`.
pub open spec fn path_components(p: Seq<char>) -> Seq<Seq<char>> {
    segments_from(p, 0).filter(|seg: Seq<char>| seg.len() > 0 && seg != seq!['.'])
}

/// `Path::file_name` on Unix: the last component, unless there is none or
/// it is `..`.
pub open spec fn path_file_name_spec(p: Seq<char>) -> Option<Seq<char>> {
    let cs = path_components(p);
    if cs.len() == 0 || cs.last() == seq!['.', '.'] {
        None
    } else {
        Some(cs.last())
    }
}

proof fn lemma_next_slash_shift(p: Seq<char>, q: Seq<char>, j: int)
    requires
        0 <= j <= q.len(),
    ensures
        next_index_of(p + q, '/', p.len() + j) == p.len() + next_index_of(q, '/', j),
    decreases q.len() - j,
{
    if j < q.len() {
        assert((p + q)[p.len() + j] == q[j]);
        if q[j] != '/' {
            lemma_next_slash_shift(p, q, j + 1);
        }
    }
}

proof fn lemma_segments_shift(p: Seq<char>, q: Seq<char>, j: int)
    requires
        0 <= j <= q.len(),
    ensures
        segments_from(p + q, p.len() + j) == segments_from(q, j),
    decreases q.len() - j,
{
    lemma_next_slash_shift(p, q, j);
    lemma_next_index_of(q, '/', j);
    let k = next_index_of(q, '/', j);
    assert((p + q).subrange(p.len() + j, p.len() + k) =~= q.subrange(j, k));
    if k < q.len() {
        lemma_segments_shift(p, q, k + 1);
    }
}

proof fn lemma_next_slash_prefix(r: Seq<char>, q: Seq<char>, pos: int)
    requires
        0 <= pos <= r.len(),
    ensures
        next_index_of(r + seq!['/'] + q, '/', pos) == next_index_of(r, '/', pos),
    decreases r.len() - pos,
{
    let s = r + seq!['/'] + q;
    if pos < r.len() {
        assert(s[pos] == r[pos]);
        if r[pos] != '/' {
            lemma_next_slash_prefix(r, q, pos + 1);
        }
    } else {
        assert(s[pos] == '/');
    }
}

proof fn lemma_segments_split(r: Seq<char>, q: Seq<char>, pos: int)
    requires
        0 <= pos <= r.len(),
    ensures
        segments_from(r + seq!['/'] + q, pos) == segments_from(r, pos) + segments_from(q, 0),
    decreases r.len() - pos,
{
    let s = r + seq!['/'] + q;
    lemma_next_slash_prefix(r, q, pos);
    lemma_next_index_of(r, '/', pos);
    let k = next_index_of(r, '/', pos);
    assert(s.subrange(pos, k) =~= r.subrange(pos, k));
    if k < r.len() {
        lemma_segments_split(r, q, k + 1);
        assert(seq![r.subrange(pos, k)] + (segments_from(r, k + 1) + segments_from(q, 0)) =~= (seq![
            r.subrange(pos, k),
        ] + segments_from(r, k + 1)) + segments_from(q, 0));
    } else {
        lemma_segments_shift(r + seq!['/'], q, 0);
    }
}

proof fn lemma_single_segment(n: Seq<char>)
    requires
        !n.contains('/'),
    ensures
        segments_from(n, 0) == seq![n],
{
    lemma_next_index_of(n, '/', 0);
    if next_index_of(n, '/', 0) < n.len() {
        assert(n.contains(n[next_index_of(n, '/', 0)]));
    }
    assert(n.subrange(0, n.len() as int) =~= n);
}

/// The file name of a path is its last piece: `dir/name` and `name` alone
/// both give `name` (for a name without `/` that is neither `.` nor `..`),
/// and a trailing `/` changes nothing.
pub proof fn lemma_file_name_of_path(dir: Seq<char>, name: Seq<char>, p: Seq<char>)
    requires
        name.len() > 0,
        !name.contains('/'),
        name != seq!['.'],
        name != seq!['.', '.'],
    ensures
        path_file_name_spec(dir + seq!['/'] + name) == Some(name),
        path_file_name_spec(name) == Some(name),
        path_file_name_spec(p + seq!['/']) == path_file_name_spec(p),
{
    let pred = |seg: Seq<char>| seg.len() > 0 && seg != seq!['.'];
    lemma_single_segment(name);
    lemma_segments_split(dir, name, 0);
    let sd = segments_from(dir, 0);
    Seq::filter_distributes_over_add(sd, seq![name], pred);
    reveal(Seq::filter);
    assert(seq![name].drop_last() =~= Seq::<Seq<char>>::empty());
    assert(seq![name].filter(pred) =~= seq![name]);
    let e = Seq::<char>::empty();
    assert(p + seq!['/'] =~= p + seq!['/'] + e);
    lemma_single_segment(e);
    lemma_segments_split(p, e, 0);
    let sp = segments_from(p, 0);
    Seq::filter_distributes_over_add(sp, seq![e], pred);
    assert(seq![e].drop_last() =~= Seq::<Seq<char>>::empty());
    assert(seq![e].filter(pred) =~= Seq::<Seq<char>>::empty());
    assert(sp.filter(pred) + Seq::<Seq<char>>::empty() =~= sp.filter(pred));
}

/// Calls `std::path::Path::file_name` and converts the name with
/// `to_string_lossy`, which gives a name taken from valid UTF-8 back
/// unchanged. The contract states the Unix meaning of `file_name`: the last
/// component (pieces between `/`, with empty and `.` pieces dropped), none
/// when there is no component or the last one is `..`.
#[verifier::external_body]
fn path_file_name(path: &str) -> (r: Option<String>)
    ensures
        r.deep_view() == path_file_name_spec(path@),
{
    match std::path::Path::new(path).file_name() {
        Some(n) => Some(n.to_string_lossy().to_string()),
        None => None,
    }
}

/// The entry for a listed path and its name: none when the name is empty;
/// a size or time the server did not report counts as 0.
pub open spec fn entry_of(name: Seq<char>, path: Seq<char>, is_dir: bool, size: Option<u64>, mtime: Option<u64>) -> Option<RemoteEntryView> {
    if name.len() == 0 {
        None
    } else {
        Some(
            RemoteEntryView {
                name: name,
                path: path,
                is_dir: is_dir,
                size: match size {
                    Some(s) => s,
                    None => 0,
                },
                modified: match mtime {
                    Some(m) => m,
                    None => 0,
                },
            },
        )
    }
}

/// The name a listed path is shown under (empty when it has none).
pub open spec fn listed_name(path: Seq<char>) -> Seq<char> {
    match path_file_name_spec(path) {
        Some(n) => n,
        None => Seq::empty(),
    }
}

/// The entries kept from a listing, in the order the server gave them.
pub open spec fn kept_entries(stats: Seq<RemoteStat>) -> Seq<RemoteEntryView>
    decreases stats.len(),
{
    if stats.len() == 0 {
        Seq::empty()
    } else {
        let st = stats.last();
        let rest = kept_entries(stats.drop_last());
        match entry_of(listed_name(st.path@), st.path@, st.is_dir, st.size, st.mtime) {
            Some(e) => rest.push(e),
            None => rest,
        }
    }
}

/// Each kept entry is named by the file name of its path, never by an
/// empty name, and carries its stat's kind, size and time (0 when not
/// reported); no stat gives more than one entry, and when every path has a
/// file name, every stat gives one.
pub proof fn lemma_kept_entries(stats: Seq<RemoteStat>)
    ensures
        kept_entries(stats).len() <= stats.len(),
        forall|i: int|
            0 <= i < kept_entries(stats).len() ==> {
                let e = #[trigger] kept_entries(stats)[i];
                &&& e.name.len() > 0
                &&& path_file_name_spec(e.path) == Some(e.name)
                &&& exists|j: int|
                    0 <= j < stats.len() && (#[trigger] stats[j]).path@ == e.path && stats[j].is_dir == e.is_dir
                        && e.size == (match stats[j].size {
                        Some(x) => x,
                        None => 0,
                    }) && e.modified == (match stats[j].mtime {
                        Some(x) => x,
                        None => 0,
                    })
            },
        (forall|j: int| 0 <= j < stats.len() ==> path_file_name_spec((#[trigger] stats[j]).path@) is Some
            && path_file_name_spec(stats[j].path@)->0.len() > 0) ==> kept_entries(stats).len() == stats.len(),
    decreases stats.len(),
{
    if stats.len() > 0 {
        let init = stats.drop_last();
        lemma_kept_entries(init);
        let rest = kept_entries(init);
        let k = kept_entries(stats);
        let st = stats.last();
        assert forall|i: int| 0 <= i < k.len() implies {
            let e = #[trigger] k[i];
            &&& e.name.len() > 0
            &&& path_file_name_spec(e.path) == Some(e.name)
            &&& exists|j: int|
                0 <= j < stats.len() && (#[trigger] stats[j]).path@ == e.path && stats[j].is_dir == e.is_dir
                    && e.size == (match stats[j].size {
                    Some(x) => x,
                    None => 0,
                }) && e.modified == (match stats[j].mtime {
                    Some(x) => x,
                    None => 0,
                })
        } by {
            if i < rest.len() {
                assert(k[i] == rest[i]);
                let e = rest[i];
                let j = choose|j: int|
                    0 <= j < init.len() && (#[trigger] init[j]).path@ == e.path && init[j].is_dir == e.is_dir
                        && e.size == (match init[j].size {
                        Some(x) => x,
                        None => 0,
                    }) && e.modified == (match init[j].mtime {
                        Some(x) => x,
                        None => 0,
                    });
                assert(stats[j] == init[j]);
            } else {
                assert(stats[stats.len() - 1] == st);
            }
        }
        if forall|j: int| 0 <= j < stats.len() ==> path_file_name_spec((#[trigger] stats[j]).path@) is Some
            && path_file_name_spec(stats[j].path@)->0.len() > 0 {
            assert forall|j: int| 0 <= j < init.len() implies path_file_name_spec((#[trigger] init[j]).path@) is Some
                && path_file_name_spec(init[j].path@)->0.len() > 0 by {
                assert(init[j] == stats[j]);
            }
            assert(stats[stats.len() - 1] == st);
        }
    }
}

/// Lexicographic order of names, character by character (which is also
/// the byte order of their UTF-8 encodings).
pub open spec fn name_le(a: Seq<char>, b: Seq<char>) -> bool
    decreases a.len(),
{
    if a.len() == 0 {
        true
    } else if b.len() == 0 {
        false
    } else if (a[0] as u32) < (b[0] as u32) {
        true
    } else if (a[0] as u32) == (b[0] as u32) {
        name_le(a.drop_first(), b.drop_first())
    } else {
        false
    }
}

/// Names are ordered lexicographically: a name comes before every longer
/// name that it begins, and two names that first differ at some position are
/// ordered by their characters there, whatever their lengths. The order is
/// total and reflexive.
pub proof fn lemma_name_order(a: Seq<char>, b: Seq<char>)
    ensures
        name_le(a, a),
        name_le(a, b) || name_le(b, a),
        (a.len() < b.len() && a == b.take(a.len() as int)) ==> name_le(a, b) && !name_le(b, a),
        forall|i: int|
            0 <= i < a.len() && i < b.len() && a.take(i) == b.take(i) && (#[trigger] a[i] as u32) < (
            b[i] as u32) ==> name_le(a, b) && !name_le(b, a),
    decreases a.len(),
{
    if a.len() > 0 {
        lemma_name_order(a.drop_first(), a.drop_first());
    }
    if a.len() > 0 && b.len() > 0 {
        let a1 = a.drop_first();
        let b1 = b.drop_first();
        lemma_name_order(a1, b1);
        if a.len() < b.len() && a == b.take(a.len() as int) {
            assert(a[0] == b[0]);
            assert(a1 =~= b1.take(a1.len() as int));
        }
        assert forall|i: int|
            0 <= i < a.len() && i < b.len() && a.take(i) == b.take(i) && (#[trigger] a[i] as u32) < (
            b[i] as u32) implies name_le(a, b) && !name_le(b, a) by {
            if i > 0 {
                assert(a[0] == a.take(i)[0]);
                assert(b[0] == b.take(i)[0]);
                assert(a1.take(i - 1) =~= a.take(i).drop_first());
                assert(b1.take(i - 1) =~= b.take(i).drop_first());
                assert(a1[i - 1] == a[i]);
                assert(b1[i - 1] == b[i]);
            }
        }
    } else if a.len() == 0 {
        if b.len() > 0 {
            assert(!name_le(b, a));
        }
    }
}

/// The listing order: directories first, then by name.
pub open spec fn entry_le(a: RemoteEntryView, b: RemoteEntryView) -> bool {
    (a.is_dir && !b.is_dir) || (a.is_dir == b.is_dir && name_le(a.name, b.name))
}

/// Directories are listed before files, whatever their names; entries of
/// the same kind go by name.
pub proof fn lemma_dirs_first(a: RemoteEntryView, b: RemoteEntryView)
    ensures
        a.is_dir && !b.is_dir ==> entry_le(a, b) && !entry_le(b, a),
        a.is_dir == b.is_dir ==> (entry_le(a, b) <==> name_le(a.name, b.name)),
{
}

pub open spec fn sorted_listing(s: Seq<RemoteEntryView>) -> bool {
    forall|i: int, j: int| 0 <= i < j < s.len() ==> entry_le(s[i], s[j])
}

pub proof fn lemma_name_le_total(a: Seq<char>, b: Seq<char>)
    ensures
        name_le(a, b) || name_le(b, a),
    decreases a.len(),
{
    if a.len() > 0 && b.len() > 0 && (a[0] as u32) == (b[0] as u32) {
        lemma_name_le_total(a.drop_first(), b.drop_first());
    }
}

pub proof fn lemma_name_le_transitive(a: Seq<char>, b: Seq<char>, c: Seq<char>)
    requires
        name_le(a, b),
        name_le(b, c),
    ensures
        name_le(a, c),
    decreases a.len(),
{
    if a.len() > 0 && b.len() > 0 && c.len() > 0 && (a[0] as u32) == (b[0] as u32) && (b[0] as u32) == (c[0] as u32) {
        lemma_name_le_transitive(a.drop_first(), b.drop_first(), c.drop_first());
    }
}

proof fn lemma_entry_le_total(a: RemoteEntryView, b: RemoteEntryView)
    ensures
        entry_le(a, b) || entry_le(b, a),
{
    lemma_name_le_total(a.name, b.name);
}

proof fn lemma_entry_le_transitive(a: RemoteEntryView, b: RemoteEntryView, c: RemoteEntryView)
    requires
        entry_le(a, b),
        entry_le(b, c),
    ensures
        entry_le(a, c),
{
    if a.is_dir == b.is_dir && b.is_dir == c.is_dir {
        lemma_name_le_transitive(a.name, b.name, c.name);
    }
}

/// Entries that tie: each comes before or with the other in the listing order.
pub open spec fn ties(a: RemoteEntryView, b: RemoteEntryView) -> bool {
    entry_le(a, b) && entry_le(b, a)
}

pub open spec fn tie_pred(e: RemoteEntryView) -> spec_fn(RemoteEntryView) -> bool {
    |x: RemoteEntryView| ties(x, e)
}

/// The entries of `s` that tie with `e`, in their order in `s`.
pub open spec fn ties_of(s: Seq<RemoteEntryView>, e: RemoteEntryView) -> Seq<RemoteEntryView> {
    s.filter(tie_pred(e))
}

/// Entries that tie keep their relative order (a stable sort).
pub open spec fn same_tie_order(a: Seq<RemoteEntryView>, b: Seq<RemoteEntryView>) -> bool {
    forall|e: RemoteEntryView| #[trigger] ties_of(a, e) == ties_of(b, e)
}

proof fn lemma_filter_single(x: RemoteEntryView, pred: spec_fn(RemoteEntryView) -> bool)
    ensures
        seq![x].filter(pred) == if pred(x) {
            seq![x]
        } else {
            Seq::<RemoteEntryView>::empty()
        },
{
    reveal(Seq::filter);
    assert(seq![x].drop_last() =~= Seq::<RemoteEntryView>::empty());
    assert(Seq::<RemoteEntryView>::empty().filter(pred) =~= Seq::<RemoteEntryView>::empty());
}

/// Inserting `x` after the entries that come before or with it, in a sorted
/// listing, puts it after every entry it ties with.
proof fn lemma_insert_ties(ov: Seq<RemoteEntryView>, p: int, x: RemoteEntryView, e: RemoteEntryView)
    requires
        0 <= p <= ov.len(),
        sorted_listing(ov),
        p < ov.len() ==> !entry_le(ov[p], x),
    ensures
        ties_of(ov.insert(p, x), e) == if ties(x, e) {
            ties_of(ov, e).push(x)
        } else {
            ties_of(ov, e)
        },
{
    let pred = tie_pred(e);
    let a = ov.take(p);
    let b = ov.skip(p);
    assert(ov.insert(p, x) =~= a + (seq![x] + b));
    assert(ov =~= a + b);
    Seq::filter_distributes_over_add(a, seq![x] + b, pred);
    Seq::filter_distributes_over_add(seq![x], b, pred);
    Seq::filter_distributes_over_add(a, b, pred);
    lemma_filter_single(x, pred);
    if ties(x, e) {
        assert(b.filter(pred) =~= Seq::<RemoteEntryView>::empty()) by {
            if b.filter(pred).len() > 0 {
                let f = b.filter(pred)[0];
                b.lemma_filter_pred(pred, 0);
                assert(pred(f));
                assert(b.filter(pred).contains(f));
                b.lemma_filter_contains_rev(pred, f);
                assert(b.contains(f));
                let j = choose|j: int| 0 <= j < b.len() && b[j] == f;
                assert(ov[p + j] == f);
                lemma_entry_le_transitive(f, e, x);
                if j > 0 {
                    lemma_entry_le_transitive(ov[p], f, x);
                }
            }
        }
        assert(a.filter(pred) + (seq![x] + Seq::<RemoteEntryView>::empty()) =~= (a.filter(pred)
            + Seq::<RemoteEntryView>::empty()).push(x));
    } else {
        assert(a.filter(pred) + (Seq::<RemoteEntryView>::empty() + b.filter(pred)) =~= a.filter(pred)
            + b.filter(pred));
    }
}

/// Whether `a` comes before `b` by name, or is equal to it.
fn names_in_order(a: &String, b: &String) -> (r: bool)
    ensures
        r == name_le(a@, b@),
{
    let ac = chars_of(a.as_str());
    let bc = chars_of(b.as_str());
    let mut i: usize = 0;
    proof {
        assert(ac@.skip(0) =~= ac@);
        assert(bc@.skip(0) =~= bc@);
    }
    while i < ac.len()
        invariant
            i <= ac@.len(),
            i <= bc@.len(),
            ac@ == a@,
            bc@ == b@,
            name_le(a@, b@) == name_le(ac@.skip(i as int), bc@.skip(i as int)),
        decreases ac@.len() - i,
    {
        proof {
            assert(ac@.skip(i as int).drop_first() =~= ac@.skip(i + 1));
        }
        if i == bc.len() {
            return false;
        }
        proof {
            assert(bc@.skip(i as int).drop_first() =~= bc@.skip(i + 1));
        }
        let x = ac[i];
        let y = bc[i];
        if (x as u32) < (y as u32) {
            return true;
        }
        if (x as u32) != (y as u32) {
            return false;
        }
        i = i + 1;
    }
    true
}

fn entries_in_order(a: &RemoteEntry, b: &RemoteEntry) -> (r: bool)
    ensures
        r == entry_le(a@, b@),
{
    (a.is_dir && !b.is_dir) || (a.is_dir == b.is_dir && names_in_order(&a.name, &b.name))
}

/// The entries sorted for display, directories first and then by name;
/// entries that tie keep their order (a stable sort).
pub fn sort_entries(entries: Vec<RemoteEntry>) -> (r: Vec<RemoteEntry>)
    ensures
        sorted_listing(entries_view(r@)),
        entries_view(r@).to_multiset() == entries_view(entries@).to_multiset(),
        same_tie_order(entries_view(r@), entries_view(entries@)),
{
    let ghost input = entries_view(entries@);
    let mut rest = entries;
    let mut out: Vec<RemoteEntry> = Vec::new();
    // take the entries front to back by reversing once, then popping
    let mut rev: Vec<RemoteEntry> = Vec::new();
    while rest.len() > 0
        invariant
            entries_view(rev@) + entries_view(rest@).reverse() == input.reverse(),
        decreases rest@.len(),
    {
        let e = rest.pop().unwrap();
        let ghost before = entries_view(rev@);
        proof {
            assert(entries_view(rest@.push(e)) =~= entries_view(rest@).push(e@));
            assert(entries_view(rest@).push(e@).reverse() =~= seq![e@] + entries_view(rest@).reverse());
        }
        rev.push(e);
        proof {
            assert(entries_view(rev@) =~= before.push(e@));
            assert(before.push(e@) + entries_view(rest@).reverse() =~= before + (seq![e@] + entries_view(rest@).reverse()));
        }
    }
    proof {
        assert(entries_view(rest@).reverse() =~= Seq::<RemoteEntryView>::empty());
        assert(entries_view(rev@) =~= input.reverse());
        input.lemma_reverse_to_multiset();
    }
    let ghost mut m: int = 0;
    proof {
        assert(input.subrange(0, input.len() as int) =~= input);
        assert forall|x: RemoteEntryView| #[trigger] ties_of(entries_view(out@), x) == ties_of(input.take(0), x) by {
            reveal(Seq::filter);
            assert(entries_view(out@) =~= Seq::<RemoteEntryView>::empty());
            assert(input.take(0) =~= Seq::<RemoteEntryView>::empty());
        }
    }
    while rev.len() > 0
        invariant
            0 <= m <= input.len(),
            entries_view(rev@) == input.subrange(m, input.len() as int).reverse(),
            sorted_listing(entries_view(out@)),
            entries_view(out@).to_multiset().add(entries_view(rev@).to_multiset()) == input.to_multiset(),
            same_tie_order(entries_view(out@), input.take(m)),
        decreases rev@.len(),
    {
        let ghost old_rev = rev@;
        let e = rev.pop().unwrap();
        proof {
            assert(old_rev.last() == e);
            assert(entries_view(old_rev).last() == e@);
            assert(input.subrange(m, input.len() as int).reverse().last() == input[m]);
            assert(e@ == input[m]);
            assert(input.subrange(m + 1, input.len() as int).reverse() =~= input.subrange(
                m,
                input.len() as int,
            ).reverse().drop_last());
        }
        let ghost ov = entries_view(out@);
        proof {
            assert(old_rev =~= rev@.push(e));
            assert(entries_view(rev@.push(e)) =~= entries_view(rev@).push(e@));
        }
        // first position whose entry does not come before or tie with `e`
        let mut p: usize = 0;
        while p < out.len() && entries_in_order(&out[p], &e)
            invariant
                p <= out@.len(),
                ov == entries_view(out@),
                forall|k: int| 0 <= k < p ==> entry_le(#[trigger] ov[k], e@),
            decreases out@.len() - p,
        {
            p = p + 1;
        }
        out.insert(p, e);
        proof {
            let nv = entries_view(out@);
            assert(nv =~= ov.insert(p as int, e@));
            if p < ov.len() {
                lemma_entry_le_total(ov[p as int], e@);
            }
            assert forall|i: int, j: int| 0 <= i < j < nv.len() implies entry_le(nv[i], nv[j]) by {
                if j < p {
                    assert(nv[i] == ov[i] && nv[j] == ov[j]);
                } else if j == p {
                    assert(nv[i] == ov[i]);
                } else if i < p {
                    assert(nv[j] == ov[j - 1]);
                    assert(nv[i] == ov[i]);
                    assert(entry_le(ov[i], e@));
                    lemma_entry_le_total(ov[p as int], e@);
                    if j - 1 > p {
                        lemma_entry_le_transitive(e@, ov[p as int], ov[j - 1]);
                    }
                    lemma_entry_le_transitive(ov[i], e@, ov[j - 1]);
                } else if i == p {
                    assert(nv[j] == ov[j - 1]);
                    lemma_entry_le_total(ov[p as int], e@);
                    if j - 1 > p {
                        lemma_entry_le_transitive(e@, ov[p as int], ov[j - 1]);
                    }
                } else {
                    assert(nv[i] == ov[i - 1] && nv[j] == ov[j - 1]);
                }
            }
            assert(nv.to_multiset() == ov.to_multiset().insert(e@));
            assert(input.take(m + 1) =~= input.take(m).push(e@));
            assert forall|x: RemoteEntryView| #[trigger] ties_of(nv, x) == ties_of(input.take(m + 1), x) by {
                lemma_insert_ties(ov, p as int, e@, x);
                input.take(m).lemma_filter_push(e@, tie_pred(x));
                assert(ties_of(ov, x) == ties_of(input.take(m), x));
            }
            m = m + 1;
            assert(nv.to_multiset().add(entries_view(rev@).to_multiset()) =~= ov.to_multiset().add(
                entries_view(rev@).push(e@).to_multiset(),
            ));
        }
    }
    proof {
        assert(input.subrange(m, input.len() as int).reverse().len() == 0);
        assert(input.take(m) =~= input);
        assert(entries_view(rev@) =~= Seq::<RemoteEntryView>::empty());
        assert(entries_view(out@).to_multiset() =~= entries_view(out@).to_multiset().add(
            entries_view(rev@).to_multiset(),
        ));
    }
    out
}


pub open spec fn opt_view(e: Option<RemoteEntry>) -> Option<RemoteEntryView> {
    match e {
        Some(x) => Some(x@),
        None => None,
    }
}

/// The entry for one listed path, given the name it is shown under.
pub fn listing_entry(name: String, stat: &RemoteStat) -> (r: Option<RemoteEntry>)
    ensures
        opt_view(r) == entry_of(name@, stat.path@, stat.is_dir, stat.size, stat.mtime),
{
    if name.as_str().is_empty() {
        return None;
    }
    Some(RemoteEntry {
        name,
        path: stat.path.clone(),
        is_dir: stat.is_dir,
        size: match stat.size {
            Some(s) => s,
            None => 0,
        },
        modified: match stat.mtime {
            Some(m) => m,
            None => 0,
        },
    })
}

/// A remote directory listing for display: entries without a name are
/// left out, the rest are sorted with directories first, then by name,
/// entries that tie keeping the server's order.
pub fn list_dir_entries(stats: &Vec<RemoteStat>) -> (r: Vec<RemoteEntry>)
    ensures
        sorted_listing(entries_view(r@)),
        entries_view(r@).to_multiset() == kept_entries(stats@).to_multiset(),
        same_tie_order(entries_view(r@), kept_entries(stats@)),
{
    let mut kept: Vec<RemoteEntry> = Vec::new();
    let mut i: usize = 0;
    while i < stats.len()
        invariant
            i <= stats@.len(),
            entries_view(kept@) == kept_entries(stats@.take(i as int)),
        decreases stats@.len() - i,
    {
        let st = &stats[i];
        let name = match path_file_name(st.path.as_str()) {
            Some(n) => n,
            None => String::new(),
        };
        proof {
            assert(name@ == listed_name(st.path@));
            assert(stats@.take(i + 1).drop_last() =~= stats@.take(i as int));
            assert(stats@.take(i + 1).last() == stats@[i as int]);
        }
        let ghost before = entries_view(kept@);
        match listing_entry(name, st) {
            Some(e) => {
                kept.push(e);
                proof {
                    assert(entries_view(kept@) =~= before.push(e@));
                }
            },
            None => {},
        }
        i = i + 1;
    }
    proof {
        assert(stats@.take(i as int) =~= stats@);
    }
    sort_entries(kept)
}

/// Where and as whom to connect for a host alias.
#[derive(Debug)]
pub struct ConnectParams {
    pub hostname: String,
    pub port: u16,
    pub user: String,
}

/// The value of a string of ASCII digits.
pub open spec fn digits_value(s: Seq<char>) -> nat
    decreases s.len(),
{
    if s.len() == 0 {
        0
    } else {
        digits_value(s.drop_last()) * 10 + ((s.last() as u32) - 48) as nat
    }
}

pub open spec fn all_digits(s: Seq<char>) -> bool {
    forall|i: int| 0 <= i < s.len() ==> '0' <= #[trigger] s[i] <= '9'
}

/// `u16::from_str`: an optional `+`, then one or more ASCII digits whose
/// value fits in 16 bits.
pub open spec fn parse_u16_spec(s: Seq<char>) -> Option<u16> {
    let d = if s.len() > 0 && s[0] == '+' {
        s.drop_first()
    } else {
        s
    };
    if d.len() > 0 && all_digits(d) && digits_value(d) <= 0xffff {
        Some(digits_value(d) as u16)
    } else {
        None
    }
}

/// The decimal text of a number is all digits, and its digits are worth
/// that number.
pub proof fn lemma_decimal_digits(n: nat)
    ensures
        decimal(n).len() > 0,
        all_digits(decimal(n)),
        digits_value(decimal(n)) == n,
    decreases n,
{
    let c = digit_char(n % 10);
    assert((c as u32) == n % 10 + 48);
    if n < 10 {
        let d = decimal(n);
        assert(d.drop_last() =~= Seq::<char>::empty());
        assert(d.last() == c);
        assert(digits_value(Seq::<char>::empty()) == 0);
        assert(digits_value(d) == digits_value(d.drop_last()) * 10 + ((d.last() as u32) - 48) as nat);
    } else {
        lemma_decimal_digits(n / 10);
        let d = decimal(n);
        assert(d.drop_last() =~= decimal(n / 10));
        assert(d.last() == c);
        assert(digits_value(d) == digits_value(d.drop_last()) * 10 + ((d.last() as u32) - 48) as nat);
        assert(n == (n / 10) * 10 + n % 10) by (nonlinear_arith);
        assert forall|i: int| 0 <= i < d.len() implies '0' <= #[trigger] d[i] <= '9' by {
            if i < d.len() - 1 {
                assert(d[i] == decimal(n / 10)[i]);
            }
        }
    }
}

/// Every port number written in decimal reads back as itself, as
/// `str::parse::<u16>` reads it.
pub proof fn lemma_parse_decimal_port(n: u16)
    ensures
        parse_u16_spec(decimal(n as nat)) == Some(n),
{
    let d = decimal(n as nat);
    lemma_decimal_digits(n as nat);
    assert('0' <= d[0] <= '9');
    assert(d[0] != '+');
}

/// A port may be written with a leading `+`; text that holds anything but
/// digits after it, or nothing at all, is no port.
pub proof fn lemma_parse_port_shape(s: Seq<char>)
    ensures
        s.len() == 0 ==> parse_u16_spec(s) is None,
        (s.len() > 0 && s[0] != '+' && exists|i: int| 0 <= i < s.len() && !('0' <= #[trigger] s[i] <= '9'))
            ==> parse_u16_spec(s) is None,
{
    if s.len() > 0 && s[0] != '+' && exists|i: int| 0 <= i < s.len() && !('0' <= #[trigger] s[i] <= '9') {
        let i = choose|i: int| 0 <= i < s.len() && !('0' <= #[trigger] s[i] <= '9');
        assert(!all_digits(s));
    }
}

/// Reads a port number as `str::parse::<u16>` does.
pub fn parse_u16(s: &str) -> (r: Option<u16>)
    ensures
        r == parse_u16_spec(s@),
{
    let cs = chars_of(s);
    let start: usize = if cs.len() > 0 && cs[0] == '+' {
        1
    } else {
        0
    };
    let ghost d = if cs@.len() > 0 && cs@[0] == '+' {
        cs@.drop_first()
    } else {
        cs@
    };
    proof {
        assert(d =~= cs@.skip(start as int));
    }
    if start == cs.len() {
        return None;
    }
    let mut v: u32 = 0;
    let mut i: usize = start;
    while i < cs.len()
        invariant
            start <= i <= cs@.len(),
            cs@ == s@,
            d == (if cs@.len() > 0 && cs@[0] == '+' {
                cs@.drop_first()
            } else {
                cs@
            }),
            d == cs@.skip(start as int),
            all_digits(cs@.subrange(start as int, i as int)),
            v == digits_value(cs@.subrange(start as int, i as int)),
            v <= 0xffff,
        decreases cs@.len() - i,
    {
        let c = cs[i];
        if !('0' <= c && c <= '9') {
            proof {
                assert(d[i - start] == c);
                assert(!all_digits(d));
                assert(parse_u16_spec(s@) is None);
            }
            return None;
        }
        let ghost sub = cs@.subrange(start as int, i + 1);
        proof {
            assert(sub.drop_last() =~= cs@.subrange(start as int, i as int));
            assert(sub.last() == c);
        }
        v = v * 10 + ((c as u32) - 48);
        proof {
            assert(v == digits_value(sub));
        }
        if v > 0xffff {
            proof {
                assert(d.take((i + 1 - start) as int) =~= sub);
                if all_digits(d) {
                    lemma_digits_value_prefix(d, (i + 1 - start) as int);
                }
                assert(parse_u16_spec(s@) is None);
            }
            return None;
        }
        i = i + 1;
    }
    proof {
        assert(cs@.subrange(start as int, i as int) =~= d);
    }
    Some(v as u16)
}

/// A prefix of a digit string is worth no more than the whole.
proof fn lemma_digits_value_prefix(s: Seq<char>, k: int)
    requires
        0 <= k <= s.len(),
    ensures
        all_digits(s) ==> digits_value(s.take(k)) <= digits_value(s),
    decreases s.len() - k,
{
    if k == s.len() {
        assert(s.take(k) =~= s);
    }
    if k < s.len() && all_digits(s) {
        lemma_digits_value_prefix(s, k + 1);
        let t = s.take(k + 1);
        assert(t.drop_last() =~= s.take(k));
        assert('0' <= s[k] <= '9');
    }
}

pub open spec fn opt_or(v: Option<Seq<char>>, d: Seq<char>) -> Seq<char> {
    match v {
        Some(x) => x,
        None => d,
    }
}

/// Where and as whom to connect to a host: its HostName (the alias itself
/// if it has none), its Port when it reads as a number (22 otherwise), and
/// its User, else the user of the environment; with no user at all the
/// connection cannot be made.
pub fn connect_params(host: &SshHost, alias: &str, env_user: Option<String>) -> (r: Result<ConnectParams, String>)
    ensures
        (host.user is None && env_user is None) <==> r is Err,
        r matches Err(e) ==> e@ == "Could not determine SSH user"@,
        r matches Ok(p) ==> {
            &&& p.hostname@ == opt_or(host@.host_name, alias@)
            &&& p.port == match host@.port {
                Some(ps) => match parse_u16_spec(ps) {
                    Some(n) => n,
                    None => 22,
                },
                None => 22u16,
            }
            &&& p.user@ == match host@.user {
                Some(u) => u,
                None => env_user->0@,
            }
        },
{
    let hostname = match &host.host_name {
        Some(h) => h.clone(),
        None => alias.to_owned(),
    };
    let port: u16 = match &host.port {
        Some(p) => match parse_u16(p.as_str()) {
            Some(n) => n,
            None => 22,
        },
        None => 22,
    };
    let user = match &host.user {
        Some(u) => u.clone(),
        None => match env_user {
            Some(u) => u,
            None => {
                return Err("Could not determine SSH user".to_owned());
            },
        },
    };
    Ok(ConnectParams { hostname, port, user })
}

/// `~` expanded with a home directory: a path that is `~` alone or starts
/// with `~/` gets the home directory in place of the `~`; any other path, or
/// any path when there is no home directory, is left as it is.
pub open spec fn tilde_expansion(p: Seq<char>, home: Option<Seq<char>>) -> Seq<char> {
    if p.len() > 0 && p[0] == '~' && (p.len() == 1 || p[1] == '/') {
        match home {
            Some(h) => h + p.skip(1),
            None => p,
        }
    } else {
        p
    }
}

/// With a home directory, `~` alone becomes that directory and `~/rest`
/// becomes the directory followed by `/rest`; a path that starts otherwise,
/// and any path when no home directory is known, is left as it is. The
/// default key is thus `.ssh/id_ed25519` in the home directory.
pub proof fn lemma_tilde_expansion(home: Seq<char>, rest: Seq<char>, p: Seq<char>)
    ensures
        tilde_expansion(seq!['~'], Some(home)) == home,
        tilde_expansion(seq!['~', '/'] + rest, Some(home)) == home + seq!['/'] + rest,
        tilde_expansion(p, None) == p,
        (p.len() == 0 || p[0] != '~') ==> tilde_expansion(p, Some(home)) == p,
        (p.len() > 1 && p[1] != '/') ==> tilde_expansion(p, Some(home)) == p,
        tilde_expansion(opt_or(None, "~/.ssh/id_ed25519"@), Some(home)) == home + "/.ssh/id_ed25519"@,
{
    reveal_strlit("~/.ssh/id_ed25519");
    reveal_strlit("/.ssh/id_ed25519");
    assert(seq!['~'].skip(1) =~= Seq::<char>::empty());
    assert(home + Seq::<char>::empty() =~= home);
    let t = seq!['~', '/'] + rest;
    assert(t[0] == '~' && t[1] == '/');
    assert(t.skip(1) =~= seq!['/'] + rest);
    assert(home + (seq!['/'] + rest) =~= home + seq!['/'] + rest);
    let d = "~/.ssh/id_ed25519"@;
    assert(d.skip(1) =~= "/.ssh/id_ed25519"@);
}

/// Calls `shellexpand::tilde_with_context` with the given home directory.
/// The contract states what it does on a non-Windows target (where a `~\`
/// prefix is not expanded).
#[verifier::external_body]
fn expand_tilde(p: &str, home: Option<String>) -> (r: String)
    ensures
        r@ == tilde_expansion(p@, home.deep_view()),
{
    shellexpand::tilde_with_context(p, || home).to_string()
}

/// The key file tried when the agent gave no identity that works: the
/// host's IdentityFile, or `~/.ssh/id_ed25519`, with `~` expanded to the
/// home directory (`home` is the user's home directory, when it is known).
pub fn identity_key_path(identity_file: &Option<String>, home: Option<String>) -> (r: String)
    ensures
        r@ == tilde_expansion(opt_or(identity_file.deep_view(), "~/.ssh/id_ed25519"@), home.deep_view()),
{
    match identity_file {
        Some(p) => expand_tilde(p.as_str(), home),
        None => expand_tilde("~/.ssh/id_ed25519", home),
    }
}

/// The outcome of authentication: refused unless the session ended up
/// authenticated.
pub fn auth_result(authenticated: bool) -> (r: Result<(), String>)
    ensures
        r is Ok <==> authenticated,
        r matches Err(e) ==> e@ == "PERMISSION_DENIED: SSH authentication failed. No working ssh-agent identity or key was accepted for this host."@,
{
    if authenticated {
        Ok(())
    } else {
        Err("PERMISSION_DENIED: SSH authentication failed. No working ssh-agent identity or key was accepted for this host.".to_owned())
    }
}

} // verus!
