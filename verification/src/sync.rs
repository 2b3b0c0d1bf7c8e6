use vstd::prelude::*;
use crate::text::{chars_of, trim_end_index, trim_end_of, TrimClass};
use crate::ssh_config::{lemma_lines_split, lemma_single_line, lines_from};

verus! {

/// Index of the first `c` at or after `pos`, or the length of `s`.
pub open spec fn next_index_of(s: Seq<char>, c: char, pos: int) -> int
    decreases s.len() - pos,
{
    if pos >= s.len() {
        s.len() as int
    } else if s[pos] == c {
        pos
    } else {
        next_index_of(s, c, pos + 1)
    }
}

pub proof fn lemma_next_index_of(s: Seq<char>, c: char, pos: int)
    requires
        0 <= pos <= s.len(),
    ensures
        pos <= next_index_of(s, c, pos) <= s.len(),
        forall|j: int| pos <= j < next_index_of(s, c, pos) ==> s[j] != c,
        next_index_of(s, c, pos) < s.len() ==> s[next_index_of(s, c, pos)] == c,
    decreases s.len() - pos,
{
    if pos < s.len() && s[pos] != c {
        lemma_next_index_of(s, c, pos + 1);
    }
}

fn index_of_char(cs: &Vec<char>, c: char) -> (k: usize)
    ensures
        k == next_index_of(cs@, c, 0),
        k <= cs@.len(),
{
    proof {
        lemma_next_index_of(cs@, c, 0);
    }
    let mut i: usize = 0;
    while i < cs.len() && cs[i] != c
        invariant
            i <= cs@.len(),
            next_index_of(cs@, c, i as int) == next_index_of(cs@, c, 0),
        decreases cs@.len() - i,
    {
        i = i + 1;
    }
    i
}

/// The first character of an rsync update code (`<`, `>`, `c`, `h`, `.`, `*`).
pub open spec fn is_update_code(c: char) -> bool {
    c == '<' || c == '>' || c == 'c' || c == 'h' || c == '.' || c == '*'
}

/// The path that an `rsync -i` line reports for a regular file: the line is
/// split at its first space into an update code and the rest; the code must
/// have at least two characters, start with an update code and have `f` (a
/// regular file) as its second character, and the rest must not be empty.
pub open spec fn itemized_file(line: Seq<char>) -> Option<Seq<char>> {
    let k = next_index_of(line, ' ', 0);
    if k >= line.len() {
        None
    } else {
        let code = line.take(k);
        let rest = line.skip(k + 1);
        if code.len() < 2 || rest.len() == 0 {
            None
        } else if is_update_code(code[0]) && code[1] == 'f' {
            Some(rest)
        } else {
            None
        }
    }
}

/// An `rsync -i` line is an update code, a space and a path. Every update
/// code of rsync (`<` sent, `>` received, `c` created locally, `h` hard
/// link, `.` unchanged, `*` message) on a regular file (`f` second) gives
/// the path; any other second character (a directory, a link, a device) or
/// any other first character gives nothing.
pub proof fn lemma_itemized_codes(code: Seq<char>, p: Seq<char>)
    requires
        code.len() >= 2,
        !code.contains(' '),
        p.len() > 0,
    ensures
        (code[1] == 'f' && (code[0] == '<' || code[0] == '>' || code[0] == 'c' || code[0] == 'h'
            || code[0] == '.' || code[0] == '*')) ==> itemized_file(code + seq![' '] + p) == Some(p),
        code[1] != 'f' ==> itemized_file(code + seq![' '] + p) is None,
        !(code[0] == '<' || code[0] == '>' || code[0] == 'c' || code[0] == 'h' || code[0] == '.'
            || code[0] == '*') ==> itemized_file(code + seq![' '] + p) is None,
{
    let line = code + seq![' '] + p;
    let n = code.len() as int;
    lemma_next_index_of(line, ' ', 0);
    let k = next_index_of(line, ' ', 0);
    assert(line[n] == ' ');
    if k < n {
        assert(line[k] == code[k]);
        assert(code.contains(code[k]));
    }
    assert(k == n);
    assert(line.take(k) =~= code);
    assert(line.skip(k + 1) =~= p);
}

/// A line without a space, or whose code is shorter than two characters,
/// or with nothing after the space, reports no file.
pub proof fn lemma_itemized_malformed(line: Seq<char>)
    ensures
        !line.contains(' ') ==> itemized_file(line) is None,
        (line.len() >= 1 && line[line.len() - 1] == ' ' && !line.drop_last().contains(' ')) ==> itemized_file(line) is None,
{
    lemma_next_index_of(line, ' ', 0);
    let k = next_index_of(line, ' ', 0);
    if k < line.len() {
        assert(line.contains(line[k]));
        if line.len() >= 1 && line[line.len() - 1] == ' ' && !line.drop_last().contains(' ') && k < line.len() - 1 {
            assert(line.drop_last()[k] == ' ');
            assert(line.drop_last().contains(line.drop_last()[k]));
        }
    }
}

/// rsync -i output prefixes each processed entry with an update code, e.g.
/// ">f+++++++++ path/to/file". The 2nd char is the item type: f=file, d=dir,
/// L=symlink, D=device, S=special; only regular files are reported.
///
/// The code's width varies (GNU rsync pads it to 11, openrsync does not), so
/// the line is split on its first space rather than at a fixed offset.
pub fn parse_itemized_file(line: &str) -> (r: Option<&str>)
    ensures
        match r {
            Some(p) => itemized_file(line@) == Some(p@),
            None => itemized_file(line@) is None,
        },
{
    let cs = chars_of(line);
    let k = index_of_char(&cs, ' ');
    if k >= cs.len() {
        return None;
    }
    if k < 2 || k + 1 >= cs.len() {
        return None;
    }
    let c0 = cs[0];
    if !(c0 == '<' || c0 == '>' || c0 == 'c' || c0 == 'h' || c0 == '.' || c0 == '*') || cs[1] != 'f' {
        return None;
    }
    let rest = line.substring_char(k + 1, cs.len());
    proof {
        assert(rest@ =~= line@.skip(k + 1));
    }
    Some(rest)
}

/// The local side of an rsync transfer: the directory with a trailing `/`,
/// so that its contents, not the directory itself, are synced.
pub open spec fn local_arg(local_path: Seq<char>) -> Seq<char> {
    if local_path.len() > 0 && local_path.last() == '/' {
        local_path
    } else {
        local_path + "/"@
    }
}

/// The remote side of an rsync transfer, `alias:path`.
pub open spec fn remote_arg(alias: Seq<char>, remote_path: Seq<char>) -> Seq<char> {
    alias + ":"@ + remote_path
}

/// The arguments of `rsync` for a sync: archive, compress, itemized changes
/// and progress; `--delete` if asked for; then source and destination, which
/// are remote then local for a "pull" and local then remote otherwise.
pub open spec fn rsync_arguments(
    alias: Seq<char>,
    local_path: Seq<char>,
    remote_path: Seq<char>,
    direction: Seq<char>,
    delete: bool,
) -> Seq<Seq<char>> {
    let l = local_arg(local_path);
    let rm = remote_arg(alias, remote_path);
    let (src, dst) = if direction == "pull"@ {
        (rm, l)
    } else {
        (l, rm)
    };
    let base = seq!["-avz"@, "--itemize-changes"@, "--progress"@];
    let opts = if delete {
        base.push("--delete"@)
    } else {
        base
    };
    opts.push(src).push(dst)
}

/// `--delete` is among the arguments exactly when it is asked for, in
/// either direction; asking for it adds that one argument after the
/// options and changes nothing else. A pull and a push between the same
/// ends differ only in the order of the two ends: a push goes from the
/// local directory to `alias:remote_path`.
pub proof fn lemma_rsync_arguments(
    alias: Seq<char>,
    local_path: Seq<char>,
    remote_path: Seq<char>,
    direction: Seq<char>,
    delete: bool,
)
    ensures
        rsync_arguments(alias, local_path, remote_path, direction, delete).contains("--delete"@) == delete,
        rsync_arguments(alias, local_path, remote_path, direction, true) == rsync_arguments(
            alias,
            local_path,
            remote_path,
            direction,
            false,
        ).insert(3, "--delete"@),
        direction != "pull"@ ==> ({
            let r = rsync_arguments(alias, local_path, remote_path, direction, delete);
            let q = rsync_arguments(alias, local_path, remote_path, "pull"@, delete);
            &&& r.len() == q.len()
            &&& r.drop_last().drop_last() == q.drop_last().drop_last()
            &&& r[r.len() - 2] == q.last()
            &&& r.last() == q[q.len() - 2]
            &&& r.last() == alias + ":"@ + remote_path
            &&& r[r.len() - 2].last() == '/'
            &&& (local_path.len() > 0 && local_path.last() == '/' ==> r[r.len() - 2] == local_path)
            &&& (!(local_path.len() > 0 && local_path.last() == '/') ==> r[r.len() - 2] == local_path
                + "/"@)
        }),
{
    reveal_strlit("--delete");
    reveal_strlit("-avz");
    reveal_strlit("--itemize-changes");
    reveal_strlit("--progress");
    reveal_strlit(":");
    reveal_strlit("/");
    let r = rsync_arguments(alias, local_path, remote_path, direction, delete);
    let l = local_arg(local_path);
    let rm = remote_arg(alias, remote_path);
    let del = "--delete"@;
    assert(l.last() == '/');
    assert(l != del) by {
        if l == del {
            assert(del.last() == 'e');
        }
    }
    assert(rm[alias.len() as int] == ':');
    assert(rm != del) by {
        if rm == del {
            assert(del.contains(rm[alias.len() as int]));
            assert(!del.contains(':')) by {
                assert forall|i: int| 0 <= i < del.len() implies del[i] != ':' by {}
            }
        }
    }
    let with = rsync_arguments(alias, local_path, remote_path, direction, true);
    let without = rsync_arguments(alias, local_path, remote_path, direction, false);
    assert(with =~= without.insert(3, del));
    if delete {
        assert(r[3] == del);
    } else {
        assert(r.len() == 5);
        assert forall|i: int| 0 <= i < r.len() implies r[i] != del by {
            if i < 3 {
                assert(r[i].len() != del.len());
            }
        }
    }
    let q = rsync_arguments(alias, local_path, remote_path, "pull"@, delete);
    assert(r.drop_last().drop_last() =~= q.drop_last().drop_last());
}

/// direction: "pull" (remote -> local), anything else pushes (local -> remote).
pub fn rsync_args(alias: &str, local_path: &str, remote_path: &str, direction: &str, delete: bool) -> (r: Vec<String>)
    ensures
        r@.map_values(|a: String| a@) == rsync_arguments(alias@, local_path@, remote_path@, direction@, delete),
{
    let lcs = chars_of(local_path);
    let mut local = local_path.to_owned();
    if !(lcs.len() > 0 && lcs[lcs.len() - 1] == '/') {
        local.append("/");
    }
    let mut remote = alias.to_owned();
    remote.append(":");
    remote.append(remote_path);
    let pull = direction.to_owned() == "pull".to_owned();
    let mut args: Vec<String> = Vec::new();
    args.push("-avz".to_owned());
    args.push("--itemize-changes".to_owned());
    args.push("--progress".to_owned());
    if delete {
        args.push("--delete".to_owned());
    }
    let ghost opts = args@.map_values(|a: String| a@);
    if pull {
        args.push(remote);
        args.push(local);
    } else {
        args.push(local);
        args.push(remote);
    }
    proof {
        let base = seq!["-avz"@, "--itemize-changes"@, "--progress"@];
        if delete {
            assert(opts =~= base.push("--delete"@));
        } else {
            assert(opts =~= base);
        }
        assert(args@.map_values(|a: String| a@) =~= rsync_arguments(
            alias@,
            local_path@,
            remote_path@,
            direction@,
            delete,
        ));
    }
    args
}

/// The lines of `ps` joined by newlines.
pub open spec fn join_lines(ps: Seq<Seq<char>>) -> Seq<char>
    decreases ps.len(),
{
    if ps.len() == 0 {
        Seq::empty()
    } else if ps.len() == 1 {
        ps[0]
    } else {
        join_lines(ps.drop_last()) + "\n"@ + ps.last()
    }
}

/// Joined lines split back into the same lines: the clipboard text holds
/// each path on a line of its own, in order.
pub proof fn lemma_join_lines_split(ps: Seq<Seq<char>>)
    requires
        ps.len() > 0,
        forall|i: int| 0 <= i < ps.len() ==> !(#[trigger] ps[i]).contains('\n'),
    ensures
        lines_from(join_lines(ps), 0) == ps,
    decreases ps.len(),
{
    reveal_strlit("\n");
    if ps.len() == 1 {
        lemma_single_line(ps[0]);
        assert(seq![ps[0]] =~= ps);
    } else {
        let init = ps.drop_last();
        assert forall|i: int| 0 <= i < init.len() implies !(#[trigger] init[i]).contains('\n') by {
            assert(init[i] == ps[i]);
        }
        lemma_join_lines_split(init);
        assert("\n"@ =~= seq!['\n']);
        lemma_lines_split(join_lines(init), ps.last(), 0);
        assert(ps.last() == ps[ps.len() - 1]);
        lemma_single_line(ps.last());
        assert(init + seq![ps.last()] =~= ps);
    }
}

/// The absolute path of a changed file: the local directory, without its
/// trailing slashes, then `/` and the path that rsync reported.
pub open spec fn changed_path(local_path: Seq<char>, file: Seq<char>) -> Seq<char> {
    trim_end_of(local_path, TrimClass::Char('/')) + "/"@ + file
}

/// A changed file lies in the local directory: the directory as given
/// when it has no trailing `/`, then `/`, then the reported path; trailing
/// slashes of the directory make no difference.
pub proof fn lemma_changed_path(local_path: Seq<char>, file: Seq<char>)
    ensures
        (local_path.len() == 0 || local_path.last() != '/') ==> changed_path(local_path, file) == local_path
            + seq!['/'] + file,
        changed_path(local_path + seq!['/'], file) == changed_path(local_path, file),
{
    reveal_strlit("/");
    assert("/"@ =~= seq!['/']);
    let lp = local_path + seq!['/'];
    assert(lp.last() == '/');
    assert(lp.drop_last() =~= local_path);
}

pub open spec fn changed_paths(local_path: Seq<char>, files: Seq<Seq<char>>) -> Seq<Seq<char>> {
    files.map_values(|f: Seq<char>| changed_path(local_path, f))
}

/// The absolute paths of the files that a sync changed.
pub fn changed_file_paths(local_path: &str, files: &Vec<String>) -> (r: Vec<String>)
    ensures
        r@.map_values(|p: String| p@) == changed_paths(local_path@, files@.map_values(|f: String| f@)),
{
    let lcs = chars_of(local_path);
    let b = trim_end_index(&lcs, 0, lcs.len(), TrimClass::Char('/'));
    proof {
        assert(lcs@.subrange(0, lcs@.len() as int) =~= lcs@);
    }
    let base = local_path.substring_char(0, b);
    let ghost fv = files@.map_values(|f: String| f@);
    let mut r: Vec<String> = Vec::new();
    let mut i: usize = 0;
    while i < files.len()
        invariant
            i <= files@.len(),
            fv == files@.map_values(|f: String| f@),
            base@ == trim_end_of(local_path@, TrimClass::Char('/')),
            r@.map_values(|p: String| p@) == changed_paths(local_path@, fv.take(i as int)),
        decreases files@.len() - i,
    {
        let mut p = base.to_owned();
        p.append("/");
        p.append(files[i].as_str());
        let ghost before = r@.map_values(|p: String| p@);
        r.push(p);
        proof {
            assert(r@.map_values(|p: String| p@) =~= before.push(p@));
            assert(changed_paths(local_path@, fv.take(i + 1)) =~= changed_paths(
                local_path@,
                fv.take(i as int),
            ).push(changed_path(local_path@, fv[i as int])));
        }
        i = i + 1;
    }
    proof {
        assert(fv.take(i as int) =~= fv);
    }
    r
}

/// The text put on the clipboard after a sync: the absolute paths of the
/// changed files, one per line, or nothing when no file changed.
pub fn clipboard_text(local_path: &str, files: &Vec<String>) -> (r: Option<String>)
    ensures
        files@.len() == 0 ==> r is None,
        files@.len() > 0 ==> r is Some && r->0@ == join_lines(
            changed_paths(local_path@, files@.map_values(|f: String| f@)),
        ),
{
    if files.len() == 0 {
        return None;
    }
    let paths = changed_file_paths(local_path, files);
    let ghost pv = paths@.map_values(|p: String| p@);
    let mut text = String::new();
    let mut i: usize = 0;
    while i < paths.len()
        invariant
            i <= paths@.len(),
            pv == paths@.map_values(|p: String| p@),
            text@ == join_lines(pv.take(i as int)),
        decreases paths@.len() - i,
    {
        if i > 0 {
            text.append("\n");
        }
        text.append(paths[i].as_str());
        proof {
            assert(pv.take(i + 1).drop_last() =~= pv.take(i as int));
            if i == 0 {
                assert(pv.take(0) =~= Seq::<Seq<char>>::empty());
                assert(text@ =~= pv.take(1)[0]);
            }
        }
        i = i + 1;
    }
    proof {
        assert(pv.take(i as int) =~= pv);
    }
    Some(text)
}

} // verus!
