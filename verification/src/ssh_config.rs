use vstd::prelude::*;
use crate::glob::{glob_match, glob_matches};
use crate::text::{chars_of, first_ws_index, first_ws_position, is_ws, substring, trim, trim_end_index, trim_end_of, trim_quotes, trim_start_index, trim_start_of, trim_str, trimmed_char, words, words_in, TrimClass};

verus! {

/// A concrete `Host` alias of ~/.ssh/config with the directives that apply to it.
#[derive(Clone, Debug, Default)]
pub struct SshHost {
    pub alias: String,
    pub host_name: Option<String>,
    pub user: Option<String>,
    pub port: Option<String>,
    pub identity_file: Option<String>,
    pub proxy_command: Option<String>,
}

pub struct SshHostView {
    pub alias: Seq<char>,
    pub host_name: Option<Seq<char>>,
    pub user: Option<Seq<char>>,
    pub port: Option<Seq<char>>,
    pub identity_file: Option<Seq<char>>,
    pub proxy_command: Option<Seq<char>>,
}

impl View for SshHost {
    type V = SshHostView;

    open spec fn view(&self) -> SshHostView {
        SshHostView {
            alias: self.alias@,
            host_name: self.host_name.deep_view(),
            user: self.user.deep_view(),
            port: self.port.deep_view(),
            identity_file: self.identity_file.deep_view(),
            proxy_command: self.proxy_command.deep_view(),
        }
    }
}

/// The view of a list of hosts.
pub open spec fn hosts_view(hosts: Seq<SshHost>) -> Seq<SshHostView> {
    hosts.map_values(|h: SshHost| h@)
}

/// `str::to_lowercase`: the lowercase mapping of Unicode, applied to each
/// character (some characters map to more than one).
pub uninterp spec fn spec_to_lowercase(s: Seq<char>) -> Seq<char>;

/// Whether every character is ASCII.
pub open spec fn is_ascii(s: Seq<char>) -> bool {
    forall|i: int| 0 <= i < s.len() ==> (#[trigger] s[i] as u32) < 128
}

/// An ASCII uppercase letter made lowercase; any other character unchanged.
pub open spec fn ascii_lower(c: char) -> char {
    if 65 <= (c as u32) && (c as u32) <= 90 {
        ((c as u32) + 32) as char
    } else {
        c
    }
}

/// What `str::to_lowercase` gives: for ASCII text, the text with its
/// uppercase letters made lowercase, which is what Unicode's mapping does
/// to those characters; for other text, the Unicode mapping.
pub open spec fn lowercase(s: Seq<char>) -> Seq<char> {
    if is_ascii(s) {
        s.map_values(|c: char| ascii_lower(c))
    } else {
        spec_to_lowercase(s)
    }
}

/// Calls `str::to_lowercase`. The contract claims that ASCII text comes back
/// with `A`-`Z` made `a`-`z` and nothing else changed; of other text it
/// claims only that the result is a function of the input's characters,
/// named `spec_to_lowercase`.
#[verifier::external_body]
fn to_lowercase(s: &str) -> (r: String)
    ensures
        is_ascii(s@) ==> r@ == s@.map_values(|c: char| ascii_lower(c)),
        !is_ascii(s@) ==> r@ == spec_to_lowercase(s@),
{
    s.to_lowercase()
}

/// One `Host` block: its patterns and, in file order, the directives under it
/// (keys lowercased).
pub struct SpecBlock {
    pub patterns: Seq<Seq<char>>,
    pub fields: Seq<(Seq<char>, Seq<char>)>,
}

/// Index of the first newline at or after `pos`, or the length of `s`.
pub open spec fn next_newline(s: Seq<char>, pos: int) -> int
    decreases s.len() - pos,
{
    if pos >= s.len() {
        s.len() as int
    } else if s[pos] == '\n' {
        pos
    } else {
        next_newline(s, pos + 1)
    }
}

pub proof fn lemma_next_newline(s: Seq<char>, pos: int)
    requires
        0 <= pos <= s.len(),
    ensures
        pos <= next_newline(s, pos) <= s.len(),
        forall|j: int| pos <= j < next_newline(s, pos) ==> s[j] != '\n',
        next_newline(s, pos) < s.len() ==> s[next_newline(s, pos)] == '\n',
    decreases s.len() - pos,
{
    if pos < s.len() && s[pos] != '\n' {
        lemma_next_newline(s, pos + 1);
    }
}

/// The lines of `s` from `pos` on: the pieces between newlines. (A final
/// empty piece, or a `\r` before a newline, makes no difference to the
/// parser, which trims each line and skips blank ones.)
pub open spec fn lines_from(s: Seq<char>, pos: int) -> Seq<Seq<char>>
    decreases s.len() - pos,
{
    if pos < 0 || pos > s.len() {
        seq![]
    } else {
        let k = next_newline(s, pos);
        proof {
            lemma_next_newline(s, pos);
        }
        if k >= s.len() {
            seq![s.subrange(pos, s.len() as int)]
        } else {
            seq![s.subrange(pos, k)] + lines_from(s, k + 1)
        }
    }
}

/// What a line contributes: `None` for a blank line or a comment, else the
/// lowercased keyword and the value (the rest of the line after the first
/// whitespace character, trimmed, with surrounding double quotes removed).
pub open spec fn line_directive(line: Seq<char>) -> Option<(Seq<char>, Seq<char>)> {
    let t = trim(line);
    if t.len() == 0 || t[0] == '#' {
        None
    } else {
        let k = first_ws_index(t) as int;
        let key = lowercase(t.take(k));
        let value = if k < t.len() {
            trim_quotes(trim(t.skip(k + 1)))
        } else {
            Seq::<char>::empty()
        };
        Some((key, value))
    }
}

/// The blocks after one directive, its keyword lowercased: `host` opens a
/// new block whose patterns are the words of the value; any other keyword
/// is added to the last block, and dropped if no block is open yet.
pub open spec fn step_directive(bs: Seq<SpecBlock>, key: Seq<char>, value: Seq<char>) -> Seq<SpecBlock> {
    if key == "host"@ {
        bs.push(SpecBlock { patterns: words(value), fields: seq![] })
    } else if bs.len() > 0 {
        let last = bs.last();
        bs.update(
            bs.len() - 1,
            SpecBlock { patterns: last.patterns, fields: last.fields.push((key, value)) },
        )
    } else {
        bs
    }
}

/// The blocks after one more line: blank lines and comments change nothing.
pub open spec fn step_line(bs: Seq<SpecBlock>, line: Seq<char>) -> Seq<SpecBlock> {
    match line_directive(line) {
        None => bs,
        Some((key, value)) => step_directive(bs, key, value),
    }
}

pub open spec fn blocks_after(bs: Seq<SpecBlock>, lines: Seq<Seq<char>>) -> Seq<SpecBlock>
    decreases lines.len(),
{
    if lines.len() == 0 {
        bs
    } else {
        blocks_after(step_line(bs, lines[0]), lines.drop_first())
    }
}

/// The `Host` blocks of a config file, in file order.
pub open spec fn config_blocks(content: Seq<char>) -> Seq<SpecBlock> {
    blocks_after(seq![], lines_from(content, 0))
}

/// A pattern with `*` or `?` is a wildcard, not an alias.
pub open spec fn is_wildcard(p: Seq<char>) -> bool {
    p.contains('*') || p.contains('?')
}

pub open spec fn add_alias(acc: Seq<Seq<char>>, p: Seq<char>) -> Seq<Seq<char>> {
    if is_wildcard(p) || acc.contains(p) {
        acc
    } else {
        acc.push(p)
    }
}

pub open spec fn add_aliases(acc: Seq<Seq<char>>, ps: Seq<Seq<char>>) -> Seq<Seq<char>>
    decreases ps.len(),
{
    if ps.len() == 0 {
        acc
    } else {
        add_aliases(add_alias(acc, ps[0]), ps.drop_first())
    }
}

pub open spec fn aliases_after(acc: Seq<Seq<char>>, bs: Seq<SpecBlock>) -> Seq<Seq<char>>
    decreases bs.len(),
{
    if bs.len() == 0 {
        acc
    } else {
        aliases_after(add_aliases(acc, bs[0].patterns), bs.drop_first())
    }
}

/// The concrete (non-wildcard) patterns of all blocks, in order of first
/// appearance, each once.
pub open spec fn concrete_aliases(bs: Seq<SpecBlock>) -> Seq<Seq<char>> {
    aliases_after(seq![], bs)
}

pub open spec fn block_matches(b: SpecBlock, alias: Seq<char>) -> bool {
    exists|i: int| 0 <= i < b.patterns.len() && glob_matches(#[trigger] b.patterns[i], alias)
}

/// The value of the first directive with this key, if any.
pub open spec fn lookup(fields: Seq<(Seq<char>, Seq<char>)>, key: Seq<char>) -> Option<Seq<char>>
    decreases fields.len(),
{
    if fields.len() == 0 {
        None
    } else if fields[0].0 == key {
        Some(fields[0].1)
    } else {
        lookup(fields.drop_first(), key)
    }
}

/// The value of a directive for a host: taken from the first block that
/// matches the host and sets the directive.
pub open spec fn resolve(bs: Seq<SpecBlock>, alias: Seq<char>, key: Seq<char>) -> Option<Seq<char>>
    decreases bs.len(),
{
    if bs.len() == 0 {
        None
    } else if block_matches(bs[0], alias) && lookup(bs[0].fields, key) is Some {
        lookup(bs[0].fields, key)
    } else {
        resolve(bs.drop_first(), alias, key)
    }
}

pub open spec fn host_for(bs: Seq<SpecBlock>, alias: Seq<char>) -> SshHostView {
    SshHostView {
        alias: alias,
        host_name: resolve(bs, alias, "hostname"@),
        user: resolve(bs, alias, "user"@),
        port: resolve(bs, alias, "port"@),
        identity_file: resolve(bs, alias, "identityfile"@),
        proxy_command: resolve(bs, alias, "proxycommand"@),
    }
}

/// The hosts of a config file: one per concrete alias, in order of first
/// appearance, each with the directives of all blocks that match it.
pub open spec fn parse_config(content: Seq<char>) -> Seq<SshHostView> {
    hosts_of(config_blocks(content))
}

/// The hosts that a list of blocks describes.
pub open spec fn hosts_of(bs: Seq<SpecBlock>) -> Seq<SshHostView> {
    concrete_aliases(bs).map_values(|a: Seq<char>| host_for(bs, a))
}

/// The hosts of a config file given as its lines.
pub open spec fn parse_lines(lines: Seq<Seq<char>>) -> Seq<SshHostView> {
    hosts_of(blocks_after(seq![], lines))
}

/// A `Host` block as it is read: its patterns and its directives, in file
/// order, keys lowercased.
pub struct HostBlock {
    pub patterns: Vec<String>,
    pub fields: Vec<(String, String)>,
}

impl View for HostBlock {
    type V = SpecBlock;

    open spec fn view(&self) -> SpecBlock {
        SpecBlock {
            patterns: self.patterns@.map_values(|p: String| p@),
            fields: self.fields@.map_values(|f: (String, String)| (f.0@, f.1@)),
        }
    }
}

pub open spec fn blocks_view(bs: Seq<HostBlock>) -> Seq<SpecBlock> {
    bs.map_values(|b: HostBlock| b@)
}

/// Applies one directive, whose keyword is already lowercased, to the
/// blocks read so far.
pub fn apply_directive(blocks: &mut Vec<HostBlock>, key: String, value: String)
    ensures
        blocks_view(final(blocks)@) == step_directive(blocks_view(old(blocks)@), key@, value@),
{
    let host_kw = "host".to_owned();
    let ghost before = blocks_view(blocks@);
    if key == host_kw {
        let cs = chars_of(value.as_str());
        let patterns = words_in(value.as_str(), &cs, 0, cs.len());
        proof {
            assert(cs@.subrange(0, cs@.len() as int) =~= value@);
        }
        let fields: Vec<(String, String)> = Vec::new();
        let blk = HostBlock { patterns, fields };
        proof {
            assert(blk@.fields =~= Seq::<(Seq<char>, Seq<char>)>::empty());
        }
        blocks.push(blk);
        proof {
            assert(blocks_view(blocks@) =~= before.push(blk@));
        }
    } else if blocks.len() > 0 {
        let ghost vv = value@;
        let mut last = blocks.pop().unwrap();
        proof {
            assert(old(blocks)@ =~= blocks@.push(last));
            assert(before.last() == last@);
        }
        let ghost last_before = last@;
        last.fields.push((key, value));
        proof {
            assert(last@.fields =~= last_before.fields.push((key@, vv)));
            assert(last@.patterns =~= last_before.patterns);
        }
        blocks.push(last);
        proof {
            assert(blocks_view(blocks@) =~= before.update(
                before.len() - 1,
                SpecBlock { patterns: last_before.patterns, fields: last_before.fields.push((key@, vv)) },
            ));
        }
    }
}

fn next_newline_index(cs: &Vec<char>, pos: usize) -> (k: usize)
    requires
        pos <= cs@.len(),
    ensures
        k == next_newline(cs@, pos as int),
        pos <= k <= cs@.len(),
{
    proof {
        lemma_next_newline(cs@, pos as int);
    }
    let mut i = pos;
    while i < cs.len() && cs[i] != '\n'
        invariant
            pos <= i <= cs@.len(),
            next_newline(cs@, i as int) == next_newline(cs@, pos as int),
        decreases cs@.len() - i,
    {
        i = i + 1;
    }
    i
}

/// Applies one line, `cs[lo..hi]`, to the blocks read so far.
fn apply_line(content: &str, cs: &Vec<char>, lo: usize, hi: usize, blocks: &mut Vec<HostBlock>)
    requires
        cs@ == content@,
        lo <= hi <= cs@.len(),
    ensures
        blocks_view(final(blocks)@) == step_line(blocks_view(old(blocks)@), cs@.subrange(lo as int, hi as int)),
{
    let ghost line = cs@.subrange(lo as int, hi as int);
    let a = trim_start_index(cs, lo, hi, TrimClass::Whitespace);
    let b = trim_end_index(cs, a, hi, TrimClass::Whitespace);
    let ghost t = cs@.subrange(a as int, b as int);
    assert(t == trim(line));
    if a == b || cs[a] == '#' {
        return;
    }
    let k = first_ws_position(cs, a, b);
    proof {
        assert(t.take((k - a) as int) =~= cs@.subrange(a as int, k as int));
    }
    let key = to_lowercase(content.substring_char(a, k));
    let mut q1 = b;
    let mut q2 = b;
    if k < b {
        let v1 = trim_start_index(cs, k + 1, b, TrimClass::Whitespace);
        let v2 = trim_end_index(cs, v1, b, TrimClass::Whitespace);
        q1 = trim_start_index(cs, v1, v2, TrimClass::Char('"'));
        q2 = trim_end_index(cs, q1, v2, TrimClass::Char('"'));
        proof {
            assert(t.skip((k - a) + 1) =~= cs@.subrange(k + 1, b as int));
        }
    }
    let ghost value = cs@.subrange(q1 as int, q2 as int);
    proof {
        if k >= b {
            assert(value =~= Seq::<char>::empty());
        }
        assert(line_directive(line) == Some((key@, value)));
    }
    let value_s = substring(content, q1, q2);
    apply_directive(blocks, key, value_s);
}

/// The `Host` blocks of the whole file, in order.
fn scan_blocks(content: &str, cs: &Vec<char>) -> (r: Vec<HostBlock>)
    requires
        cs@ == content@,
    ensures
        blocks_view(r@) == config_blocks(content@),
{
    let n = cs.len();
    let mut blocks: Vec<HostBlock> = Vec::new();
    let mut pos: usize = 0;
    proof {
        assert(blocks_view(blocks@) =~= Seq::<SpecBlock>::empty());
        assert(blocks_after(blocks_view(blocks@), lines_from(cs@, 0)) == config_blocks(cs@));
    }
    loop
        invariant_except_break
            blocks_after(blocks_view(blocks@), lines_from(cs@, pos as int)) == config_blocks(cs@),
        invariant
            cs@ == content@,
            n == cs@.len(),
            pos <= n,
        ensures
            blocks_view(blocks@) == config_blocks(cs@),
        decreases n - pos,
    {
        let k = next_newline_index(cs, pos);
        let ghost before = blocks_view(blocks@);
        let ghost lines = lines_from(cs@, pos as int);
        proof {
            lemma_next_newline(cs@, pos as int);
            assert(lines.len() > 0);
            assert(lines[0] == cs@.subrange(pos as int, k as int));
            assert(blocks_after(before, lines) == blocks_after(step_line(before, lines[0]), lines.drop_first()));
        }
        apply_line(content, cs, pos, k, &mut blocks);
        if k == n {
            proof {
                assert(lines.drop_first() =~= Seq::<Seq<char>>::empty());
            }
            break;
        }
        proof {
            assert(blocks_view(blocks@) == step_line(before, lines[0]));
            assert(lines.drop_first() =~= lines_from(cs@, k + 1));
            assert(blocks_after(blocks_view(blocks@), lines_from(cs@, k + 1)) == config_blocks(cs@));
        }
        pos = k + 1;
    }
    blocks
}


pub fn contains_char(cs: &Vec<char>, c: char) -> (r: bool)
    ensures
        r == cs@.contains(c),
{
    let mut i: usize = 0;
    while i < cs.len()
        invariant
            i <= cs@.len(),
            forall|j: int| 0 <= j < i ==> cs@[j] != c,
        decreases cs@.len() - i,
    {
        if cs[i] == c {
            return true;
        }
        i = i + 1;
    }
    false
}

fn is_wildcard_pattern(p: &String) -> (r: bool)
    ensures
        r == is_wildcard(p@),
{
    let cs = chars_of(p.as_str());
    contains_char(&cs, '*') || contains_char(&cs, '?')
}

/// Whether a list of strings holds one equal to `s`.
pub fn contains_string(v: &Vec<String>, s: &String) -> (r: bool)
    ensures
        r == v@.map_values(|w: String| w@).contains(s@),
{
    let ghost vv = v@.map_values(|w: String| w@);
    let mut i: usize = 0;
    while i < v.len()
        invariant
            i <= v@.len(),
            vv == v@.map_values(|w: String| w@),
            forall|j: int| 0 <= j < i ==> vv[j] != s@,
        decreases v@.len() - i,
    {
        if v[i] == *s {
            assert(vv[i as int] == s@);
            return true;
        }
        i = i + 1;
    }
    false
}

/// The concrete aliases of the blocks, in order of first appearance.
fn collect_aliases(blocks: &Vec<HostBlock>) -> (r: Vec<String>)
    ensures
        r@.map_values(|w: String| w@) == concrete_aliases(blocks_view(blocks@)),
{
    let ghost bv = blocks_view(blocks@);
    let mut aliases: Vec<String> = Vec::new();
    proof {
        assert(aliases@.map_values(|w: String| w@) =~= Seq::<Seq<char>>::empty());
        assert(bv.skip(0) =~= bv);
    }
    let mut bi: usize = 0;
    while bi < blocks.len()
        invariant
            bi <= blocks@.len(),
            bv == blocks_view(blocks@),
            aliases_after(aliases@.map_values(|w: String| w@), bv.skip(bi as int))
                == concrete_aliases(bv),
        decreases blocks@.len() - bi,
    {
        let ghost acc0 = aliases@.map_values(|w: String| w@);
        let ghost ps = bv[bi as int].patterns;
        let patterns = &blocks[bi].patterns;
        proof {
            assert(ps == patterns@.map_values(|p: String| p@));
            assert(bv.skip(bi as int)[0] == bv[bi as int]);
            assert(bv.skip(bi as int).drop_first() =~= bv.skip(bi + 1));
            assert(ps.skip(0) =~= ps);
        }
        let mut pi: usize = 0;
        while pi < patterns.len()
            invariant
                pi <= patterns@.len(),
                ps == patterns@.map_values(|p: String| p@),
                add_aliases(aliases@.map_values(|w: String| w@), ps.skip(pi as int))
                    == add_aliases(acc0, ps),
            decreases patterns@.len() - pi,
        {
            let p = &patterns[pi];
            let ghost acc = aliases@.map_values(|w: String| w@);
            proof {
                assert(ps.skip(pi as int)[0] == p@);
                assert(ps.skip(pi as int).drop_first() =~= ps.skip(pi + 1));
            }
            if !is_wildcard_pattern(p) && !contains_string(&aliases, p) {
                aliases.push(p.clone());
                proof {
                    assert(aliases@.map_values(|w: String| w@) =~= acc.push(p@));
                }
            }
            pi = pi + 1;
        }
        proof {
            assert(ps.skip(pi as int) =~= Seq::<Seq<char>>::empty());
        }
        bi = bi + 1;
    }
    proof {
        assert(bv.skip(bi as int) =~= Seq::<SpecBlock>::empty());
    }
    aliases
}

fn block_matches_alias(b: &HostBlock, alias: &String) -> (r: bool)
    ensures
        r == block_matches(b@, alias@),
{
    let ghost ps = b@.patterns;
    let mut i: usize = 0;
    while i < b.patterns.len()
        invariant
            i <= b.patterns@.len(),
            ps == b.patterns@.map_values(|p: String| p@),
            forall|j: int| 0 <= j < i ==> !glob_matches(#[trigger] ps[j], alias@),
        decreases b.patterns@.len() - i,
    {
        if glob_match(b.patterns[i].as_str(), alias.as_str()) {
            assert(glob_matches(b@.patterns[i as int], alias@));
            return true;
        }
        i = i + 1;
    }
    proof {
        assert(ps.len() == i);
        if block_matches(b@, alias@) {
            let j = choose|j: int| 0 <= j < ps.len() && glob_matches(#[trigger] ps[j], alias@);
            assert(!glob_matches(ps[j], alias@));
        }
    }
    false
}

fn lookup_field(fields: &Vec<(String, String)>, key: &String) -> (r: Option<String>)
    ensures
        r.deep_view() == lookup(fields@.map_values(|f: (String, String)| (f.0@, f.1@)), key@),
{
    let ghost fv = fields@.map_values(|f: (String, String)| (f.0@, f.1@));
    let mut i: usize = 0;
    proof {
        assert(fv.skip(0) =~= fv);
    }
    while i < fields.len()
        invariant
            i <= fields@.len(),
            fv == fields@.map_values(|f: (String, String)| (f.0@, f.1@)),
            lookup(fv.skip(i as int), key@) == lookup(fv, key@),
        decreases fields@.len() - i,
    {
        proof {
            assert(fv.skip(i as int)[0] == fv[i as int]);
            assert(fv.skip(i as int).drop_first() =~= fv.skip(i + 1));
        }
        if fields[i].0 == *key {
            return Some(fields[i].1.clone());
        }
        i = i + 1;
    }
    proof {
        assert(fv.skip(i as int) =~= Seq::<(Seq<char>, Seq<char>)>::empty());
    }
    None
}

fn resolve_field(blocks: &Vec<HostBlock>, alias: &String, key: &String) -> (r: Option<String>)
    ensures
        r.deep_view() == resolve(blocks_view(blocks@), alias@, key@),
{
    let ghost bv = blocks_view(blocks@);
    let mut i: usize = 0;
    proof {
        assert(bv.skip(0) =~= bv);
    }
    while i < blocks.len()
        invariant
            i <= blocks@.len(),
            bv == blocks_view(blocks@),
            resolve(bv.skip(i as int), alias@, key@) == resolve(bv, alias@, key@),
        decreases blocks@.len() - i,
    {
        proof {
            assert(bv.skip(i as int)[0] == bv[i as int]);
            assert(bv.skip(i as int).drop_first() =~= bv.skip(i + 1));
        }
        if block_matches_alias(&blocks[i], alias) {
            let v = lookup_field(&blocks[i].fields, key);
            if v.is_some() {
                return v;
            }
        }
        i = i + 1;
    }
    proof {
        assert(bv.skip(i as int) =~= Seq::<SpecBlock>::empty());
    }
    None
}

/// Minimal ssh_config parser: handles `Host` blocks and the directives we
/// care about (HostName, User, Port, IdentityFile, ProxyCommand).
///
/// A host can match several `Host` blocks (wildcard ones like `Host *`
/// included), and for each directive the first matching block that sets it
/// wins, as in OpenSSH. Wildcard patterns supply defaults but are not listed.
pub fn parse_ssh_config_str(content: &str) -> (r: Vec<SshHost>)
    ensures
        hosts_view(r@) == parse_config(content@),
{
    let cs = chars_of(content);
    let blocks = scan_blocks(content, &cs);
    let aliases = collect_aliases(&blocks);
    let ghost bv = blocks_view(blocks@);
    let ghost av = aliases@.map_values(|w: String| w@);
    let k_hostname = "hostname".to_owned();
    let k_user = "user".to_owned();
    let k_port = "port".to_owned();
    let k_identity = "identityfile".to_owned();
    let k_proxy = "proxycommand".to_owned();
    let mut hosts: Vec<SshHost> = Vec::new();
    let mut i: usize = 0;
    while i < aliases.len()
        invariant
            i <= aliases@.len(),
            bv == blocks_view(blocks@),
            av == aliases@.map_values(|w: String| w@),
            bv == config_blocks(content@),
            av == concrete_aliases(bv),
            k_hostname@ == "hostname"@,
            k_user@ == "user"@,
            k_port@ == "port"@,
            k_identity@ == "identityfile"@,
            k_proxy@ == "proxycommand"@,
            hosts_view(hosts@) == av.take(i as int).map_values(|a: Seq<char>| host_for(bv, a)),
        decreases aliases@.len() - i,
    {
        let alias = &aliases[i];
        let host = SshHost {
            alias: alias.clone(),
            host_name: resolve_field(&blocks, alias, &k_hostname),
            user: resolve_field(&blocks, alias, &k_user),
            port: resolve_field(&blocks, alias, &k_port),
            identity_file: resolve_field(&blocks, alias, &k_identity),
            proxy_command: resolve_field(&blocks, alias, &k_proxy),
        };
        let ghost prev = hosts_view(hosts@);
        hosts.push(host);
        proof {
            assert(host@ == host_for(bv, av[i as int]));
            assert(hosts_view(hosts@) =~= prev.push(host@));
            assert(av.take(i + 1).map_values(|a: Seq<char>| host_for(bv, a)) =~= av.take(
                i as int,
            ).map_values(|a: Seq<char>| host_for(bv, a)).push(host_for(bv, av[i as int])));
        }
        i = i + 1;
    }
    proof {
        assert(av.take(i as int) =~= av);
    }
    hosts
}


pub open spec fn distinct(s: Seq<Seq<char>>) -> bool {
    forall|i: int, j: int| 0 <= i < s.len() && 0 <= j < s.len() && i != j ==> s[i] != s[j]
}

pub open spec fn all_concrete(s: Seq<Seq<char>>) -> bool {
    forall|i: int| 0 <= i < s.len() ==> !is_wildcard(#[trigger] s[i])
}

/// A pattern written on some `Host` line.
pub open spec fn in_some_block(bs: Seq<SpecBlock>, x: Seq<char>) -> bool {
    exists|b: int| 0 <= b < bs.len() && #[trigger] bs[b].patterns.contains(x)
}

proof fn lemma_add_alias(acc: Seq<Seq<char>>, p: Seq<char>)
    requires
        distinct(acc),
        all_concrete(acc),
    ensures
        distinct(add_alias(acc, p)),
        all_concrete(add_alias(acc, p)),
        forall|x: Seq<char>| acc.contains(x) ==> add_alias(acc, p).contains(x),
        !is_wildcard(p) ==> add_alias(acc, p).contains(p),
        forall|x: Seq<char>| add_alias(acc, p).contains(x) ==> acc.contains(x) || x == p,
{
    let r = add_alias(acc, p);
    if !(is_wildcard(p) || acc.contains(p)) {
        assert(r[acc.len() as int] == p);
        assert forall|x: Seq<char>| acc.contains(x) implies r.contains(x) by {
            let k = choose|k: int| 0 <= k < acc.len() && acc[k] == x;
            assert(r[k] == x);
        }
        assert forall|x: Seq<char>| r.contains(x) implies acc.contains(x) || x == p by {
            let k = choose|k: int| 0 <= k < r.len() && r[k] == x;
            if k < acc.len() {
                assert(acc[k] == x);
            }
        }
        assert forall|i: int, j: int| 0 <= i < r.len() && 0 <= j < r.len() && i != j implies r[i] != r[j] by {
            if i == acc.len() {
                assert(acc[j] == r[j]);
            } else if j == acc.len() {
                assert(acc[i] == r[i]);
            }
        }
    }
}

proof fn lemma_add_aliases(acc: Seq<Seq<char>>, ps: Seq<Seq<char>>)
    requires
        distinct(acc),
        all_concrete(acc),
    ensures
        distinct(add_aliases(acc, ps)),
        all_concrete(add_aliases(acc, ps)),
        forall|x: Seq<char>| acc.contains(x) ==> add_aliases(acc, ps).contains(x),
        forall|x: Seq<char>| ps.contains(x) && !is_wildcard(x) ==> add_aliases(acc, ps).contains(x),
        forall|x: Seq<char>| add_aliases(acc, ps).contains(x) ==> acc.contains(x) || ps.contains(x),
    decreases ps.len(),
{
    if ps.len() > 0 {
        let a1 = add_alias(acc, ps[0]);
        let q = ps.drop_first();
        lemma_add_alias(acc, ps[0]);
        lemma_add_aliases(a1, q);
        assert forall|x: Seq<char>| ps.contains(x) && !is_wildcard(x) implies add_aliases(acc, ps).contains(x) by {
            let k = choose|k: int| 0 <= k < ps.len() && ps[k] == x;
            if k > 0 {
                assert(q[k - 1] == x);
                assert(q.contains(x));
            }
        }
        assert forall|x: Seq<char>| add_aliases(acc, ps).contains(x) implies acc.contains(x) || ps.contains(x) by {
            if q.contains(x) {
                let k = choose|k: int| 0 <= k < q.len() && q[k] == x;
                assert(ps[k + 1] == x);
            }
            if x == ps[0] {
                assert(ps.contains(x));
            }
        }
    }
}

proof fn lemma_aliases_after(acc: Seq<Seq<char>>, bs: Seq<SpecBlock>)
    requires
        distinct(acc),
        all_concrete(acc),
    ensures
        distinct(aliases_after(acc, bs)),
        all_concrete(aliases_after(acc, bs)),
        forall|x: Seq<char>| acc.contains(x) ==> aliases_after(acc, bs).contains(x),
        forall|x: Seq<char>| in_some_block(bs, x) && !is_wildcard(x) ==> aliases_after(acc, bs).contains(x),
        forall|x: Seq<char>| aliases_after(acc, bs).contains(x) ==> acc.contains(x) || in_some_block(bs, x),
    decreases bs.len(),
{
    if bs.len() > 0 {
        let a1 = add_aliases(acc, bs[0].patterns);
        let rest = bs.drop_first();
        lemma_add_aliases(acc, bs[0].patterns);
        lemma_aliases_after(a1, rest);
        assert forall|x: Seq<char>| in_some_block(bs, x) && !is_wildcard(x) implies aliases_after(acc, bs).contains(x) by {
            let b = choose|b: int| 0 <= b < bs.len() && #[trigger] bs[b].patterns.contains(x);
            if b > 0 {
                assert(rest[b - 1] == bs[b]);
                assert(rest[b - 1].patterns.contains(x));
                assert(in_some_block(rest, x));
            }
        }
        assert forall|x: Seq<char>| aliases_after(acc, bs).contains(x) implies acc.contains(x) || in_some_block(bs, x) by {
            assert(a1.contains(x) || in_some_block(rest, x));
            if in_some_block(rest, x) {
                let b = choose|b: int| 0 <= b < rest.len() && #[trigger] rest[b].patterns.contains(x);
                assert(bs[b + 1] == rest[b]);
                assert(bs[b + 1].patterns.contains(x));
                assert(in_some_block(bs, x));
            } else {
                assert(acc.contains(x) || bs[0].patterns.contains(x));
                if bs[0].patterns.contains(x) {
                    assert(in_some_block(bs, x));
                }
            }
        }
    }
}

/// The hosts listed for a config file: no alias is a wildcard pattern, no
/// alias is listed twice, every listed alias is written on some `Host`
/// line, and every concrete pattern of every `Host` line is listed.
pub proof fn lemma_listed_aliases(content: Seq<char>)
    ensures
        ({
            let bs = config_blocks(content);
            let hosts = parse_config(content);
            let aliases = hosts.map_values(|h: SshHostView| h.alias);
            &&& all_concrete(aliases)
            &&& distinct(aliases)
            &&& forall|x: Seq<char>| aliases.contains(x) ==> in_some_block(bs, x)
            &&& forall|x: Seq<char>| in_some_block(bs, x) && !is_wildcard(x) ==> aliases.contains(x)
        }),
{
    let bs = config_blocks(content);
    let al = concrete_aliases(bs);
    let aliases = parse_config(content).map_values(|h: SshHostView| h.alias);
    assert(aliases =~= al);
    lemma_aliases_after(Seq::empty(), bs);
}

/// A block whose `Host` line names an alias applies to it: when the block
/// sets a directive, the alias gets a value for it, taken from the first
/// block (this one or an earlier one) that matches the alias and sets it.
pub proof fn lemma_named_block_applies(bs: Seq<SpecBlock>, alias: Seq<char>, i: int, key: Seq<char>)
    requires
        !is_wildcard(alias),
        0 <= i < bs.len(),
        bs[i].patterns.contains(alias),
        lookup(bs[i].fields, key) is Some,
    ensures
        resolve(bs, alias, key) is Some,
        exists|j: int|
            0 <= j <= i && block_matches(bs[j], alias) && #[trigger] lookup(bs[j].fields, key)
                == resolve(bs, alias, key),
    decreases i,
{
    let k = choose|k: int| 0 <= k < bs[i].patterns.len() && bs[i].patterns[k] == alias;
    crate::glob::lemma_literal_pattern(alias, alias);
    assert(glob_matches(bs[i].patterns[k], alias));
    assert(block_matches(bs[i], alias));
    if block_matches(bs[0], alias) && lookup(bs[0].fields, key) is Some {
        assert(lookup(bs[0].fields, key) == resolve(bs, alias, key));
    } else {
        let rest = bs.drop_first();
        assert(rest[i - 1] == bs[i]);
        lemma_named_block_applies(rest, alias, i - 1, key);
        let j = choose|j: int|
            0 <= j <= i - 1 && block_matches(rest[j], alias) && #[trigger] lookup(rest[j].fields, key)
                == resolve(rest, alias, key);
        assert(rest[j] == bs[j + 1]);
        assert(lookup(bs[j + 1].fields, key) == resolve(bs, alias, key));
    }
}

/// The directives that the parser keeps for a host.
pub open spec fn is_host_field(k: Seq<char>) -> bool {
    k == "hostname"@ || k == "user"@ || k == "port"@ || k == "identityfile"@ || k == "proxycommand"@
}

/// A line that the parser passes over: blank, a comment, or a directive
/// whose lowercased keyword is neither `host` nor one of the kept ones.
pub open spec fn ignorable_line(line: Seq<char>) -> bool {
    match line_directive(line) {
        None => true,
        Some((key, _)) => key != "host"@ && !is_host_field(key),
    }
}

/// Two lists of blocks with the same patterns and the same kept directives.
spec fn same_blocks(a: Seq<SpecBlock>, b: Seq<SpecBlock>) -> bool {
    &&& a.len() == b.len()
    &&& forall|i: int| 0 <= i < a.len() ==> #[trigger] a[i].patterns == b[i].patterns
    &&& forall|i: int, k: Seq<char>|
        0 <= i < a.len() && is_host_field(k) ==> #[trigger] lookup(a[i].fields, k) == lookup(b[i].fields, k)
}

proof fn lemma_lookup_push(fields: Seq<(Seq<char>, Seq<char>)>, f: (Seq<char>, Seq<char>), key: Seq<char>)
    ensures
        lookup(fields.push(f), key) == if lookup(fields, key) is Some {
            lookup(fields, key)
        } else if f.0 == key {
            Some(f.1)
        } else {
            None
        },
    decreases fields.len(),
{
    let g = fields.push(f);
    if fields.len() == 0 {
        assert(g.drop_first() =~= Seq::<(Seq<char>, Seq<char>)>::empty());
    } else {
        assert(g[0] == fields[0]);
        assert(g.drop_first() =~= fields.drop_first().push(f));
        lemma_lookup_push(fields.drop_first(), f, key);
    }
}

proof fn lemma_same_blocks_step(a: Seq<SpecBlock>, b: Seq<SpecBlock>, line: Seq<char>)
    requires
        same_blocks(a, b),
    ensures
        same_blocks(step_line(a, line), step_line(b, line)),
{
    match line_directive(line) {
        None => {},
        Some((key, value)) => {
            let a2 = step_line(a, line);
            let b2 = step_line(b, line);
            if key == "host"@ {
                assert forall|i: int, k: Seq<char>|
                    0 <= i < a2.len() && is_host_field(k) implies #[trigger] lookup(a2[i].fields, k)
                    == lookup(b2[i].fields, k) by {
                    if i < a.len() {
                        assert(lookup(a[i].fields, k) == lookup(b[i].fields, k));
                    }
                }
                assert forall|i: int| 0 <= i < a2.len() implies #[trigger] a2[i].patterns == b2[i].patterns by {
                    if i < a.len() {
                        assert(a[i].patterns == b[i].patterns);
                    }
                }
            } else if a.len() > 0 {
                let n = a.len() - 1;
                assert forall|i: int, k: Seq<char>|
                    0 <= i < a2.len() && is_host_field(k) implies #[trigger] lookup(a2[i].fields, k)
                    == lookup(b2[i].fields, k) by {
                    assert(lookup(a[i].fields, k) == lookup(b[i].fields, k));
                    if i == n {
                        lemma_lookup_push(a[n].fields, (key, value), k);
                        lemma_lookup_push(b[n].fields, (key, value), k);
                    }
                }
                assert forall|i: int| 0 <= i < a2.len() implies #[trigger] a2[i].patterns == b2[i].patterns by {
                    assert(a[i].patterns == b[i].patterns);
                }
            }
        },
    }
}

proof fn lemma_ignorable_step(a: Seq<SpecBlock>, line: Seq<char>)
    requires
        ignorable_line(line),
    ensures
        same_blocks(a, step_line(a, line)),
{
    let a2 = step_line(a, line);
    match line_directive(line) {
        None => {},
        Some((key, value)) => {
            if a.len() > 0 {
                let n = a.len() - 1;
                assert forall|i: int, k: Seq<char>|
                    0 <= i < a.len() && is_host_field(k) implies #[trigger] lookup(a[i].fields, k)
                    == lookup(a2[i].fields, k) by {
                    if i == n {
                        lemma_lookup_push(a[n].fields, (key, value), k);
                    }
                }
            }
        },
    }
}

proof fn lemma_same_blocks_after(a: Seq<SpecBlock>, b: Seq<SpecBlock>, lines: Seq<Seq<char>>)
    requires
        same_blocks(a, b),
    ensures
        same_blocks(blocks_after(a, lines), blocks_after(b, lines)),
    decreases lines.len(),
{
    if lines.len() > 0 {
        lemma_same_blocks_step(a, b, lines[0]);
        lemma_same_blocks_after(step_line(a, lines[0]), step_line(b, lines[0]), lines.drop_first());
    }
}

proof fn lemma_blocks_after_concat(a: Seq<SpecBlock>, l1: Seq<Seq<char>>, l2: Seq<Seq<char>>)
    ensures
        blocks_after(a, l1 + l2) == blocks_after(blocks_after(a, l1), l2),
    decreases l1.len(),
{
    if l1.len() == 0 {
        assert(l1 + l2 =~= l2);
    } else {
        assert((l1 + l2)[0] == l1[0]);
        assert((l1 + l2).drop_first() =~= l1.drop_first() + l2);
        lemma_blocks_after_concat(step_line(a, l1[0]), l1.drop_first(), l2);
    }
}

proof fn lemma_same_aliases(acc: Seq<Seq<char>>, a: Seq<SpecBlock>, b: Seq<SpecBlock>)
    requires
        same_blocks(a, b),
    ensures
        aliases_after(acc, a) == aliases_after(acc, b),
    decreases a.len(),
{
    if a.len() > 0 {
        assert(a[0].patterns == b[0].patterns);
        let a1 = a.drop_first();
        let b1 = b.drop_first();
        assert forall|i: int| 0 <= i < a1.len() implies #[trigger] a1[i].patterns == b1[i].patterns by {
            assert(a[i + 1].patterns == b[i + 1].patterns);
        }
        assert forall|i: int, k: Seq<char>|
            0 <= i < a1.len() && is_host_field(k) implies #[trigger] lookup(a1[i].fields, k)
            == lookup(b1[i].fields, k) by {
            assert(lookup(a[i + 1].fields, k) == lookup(b[i + 1].fields, k));
        }
        lemma_same_aliases(add_aliases(acc, a[0].patterns), a1, b1);
    }
}

proof fn lemma_same_resolve(a: Seq<SpecBlock>, b: Seq<SpecBlock>, alias: Seq<char>, key: Seq<char>)
    requires
        same_blocks(a, b),
        is_host_field(key),
    ensures
        resolve(a, alias, key) == resolve(b, alias, key),
    decreases a.len(),
{
    if a.len() > 0 {
        assert(a[0].patterns == b[0].patterns);
        assert(lookup(a[0].fields, key) == lookup(b[0].fields, key));
        assert(block_matches(a[0], alias) == block_matches(b[0], alias));
        let a1 = a.drop_first();
        let b1 = b.drop_first();
        assert forall|i: int| 0 <= i < a1.len() implies #[trigger] a1[i].patterns == b1[i].patterns by {
            assert(a[i + 1].patterns == b[i + 1].patterns);
        }
        assert forall|i: int, k: Seq<char>|
            0 <= i < a1.len() && is_host_field(k) implies #[trigger] lookup(a1[i].fields, k)
            == lookup(b1[i].fields, k) by {
            assert(lookup(a[i + 1].fields, k) == lookup(b[i + 1].fields, k));
        }
        lemma_same_resolve(a1, b1, alias, key);
    }
}

proof fn lemma_same_hosts(a: Seq<SpecBlock>, b: Seq<SpecBlock>)
    requires
        same_blocks(a, b),
    ensures
        hosts_of(a) == hosts_of(b),
{
    lemma_same_aliases(seq![], a, b);
    assert forall|x: Seq<char>| host_for(a, x) == host_for(b, x) by {
        lemma_same_resolve(a, b, x, "hostname"@);
        lemma_same_resolve(a, b, x, "user"@);
        lemma_same_resolve(a, b, x, "port"@);
        lemma_same_resolve(a, b, x, "identityfile"@);
        lemma_same_resolve(a, b, x, "proxycommand"@);
    }
    assert(hosts_of(a) =~= hosts_of(b));
}

/// Lines that the parser passes over can be inserted anywhere, or taken
/// out, without changing the hosts read.
pub proof fn lemma_ignorable_line(before: Seq<Seq<char>>, line: Seq<char>, after: Seq<Seq<char>>)
    requires
        ignorable_line(line),
    ensures
        parse_lines(before + seq![line] + after) == parse_lines(before + after),
{
    let e = Seq::<SpecBlock>::empty();
    let a = blocks_after(e, before);
    lemma_blocks_after_concat(e, before, seq![line] + after);
    lemma_blocks_after_concat(e, before, after);
    assert(before + seq![line] + after =~= before + (seq![line] + after));
    assert((seq![line] + after)[0] == line);
    assert((seq![line] + after).drop_first() =~= after);
    lemma_ignorable_step(a, line);
    lemma_same_blocks_after(a, step_line(a, line), after);
    lemma_same_hosts(blocks_after(a, after), blocks_after(step_line(a, line), after));
}

proof fn lemma_next_newline_shift(p: Seq<char>, q: Seq<char>, j: int)
    requires
        0 <= j <= q.len(),
    ensures
        next_newline(p + q, p.len() + j) == p.len() + next_newline(q, j),
    decreases q.len() - j,
{
    if j < q.len() {
        assert((p + q)[p.len() + j] == q[j]);
        if q[j] != '\n' {
            lemma_next_newline_shift(p, q, j + 1);
        }
    }
}

proof fn lemma_lines_shift(p: Seq<char>, q: Seq<char>, j: int)
    requires
        0 <= j <= q.len(),
    ensures
        lines_from(p + q, p.len() + j) == lines_from(q, j),
    decreases q.len() - j,
{
    lemma_next_newline_shift(p, q, j);
    lemma_next_newline(q, j);
    let k = next_newline(q, j);
    assert((p + q).subrange(p.len() + j, p.len() + k) =~= q.subrange(j, k));
    if k < q.len() {
        lemma_lines_shift(p, q, k + 1);
    }
}

proof fn lemma_next_newline_prefix(r: Seq<char>, q: Seq<char>, pos: int)
    requires
        0 <= pos <= r.len(),
    ensures
        next_newline(r + seq!['\n'] + q, pos) == next_newline(r, pos),
    decreases r.len() - pos,
{
    let s = r + seq!['\n'] + q;
    if pos < r.len() {
        assert(s[pos] == r[pos]);
        if r[pos] != '\n' {
            lemma_next_newline_prefix(r, q, pos + 1);
        }
    } else {
        assert(s[pos] == '\n');
    }
}

pub proof fn lemma_lines_split(r: Seq<char>, q: Seq<char>, pos: int)
    requires
        0 <= pos <= r.len(),
    ensures
        lines_from(r + seq!['\n'] + q, pos) == lines_from(r, pos) + lines_from(q, 0),
    decreases r.len() - pos,
{
    let s = r + seq!['\n'] + q;
    lemma_next_newline_prefix(r, q, pos);
    lemma_next_newline(r, pos);
    let k = next_newline(r, pos);
    assert(s.subrange(pos, k) =~= r.subrange(pos, k));
    if k < r.len() {
        lemma_lines_split(r, q, k + 1);
        assert(seq![r.subrange(pos, k)] + (lines_from(r, k + 1) + lines_from(q, 0)) =~= (seq![
            r.subrange(pos, k),
        ] + lines_from(r, k + 1)) + lines_from(q, 0));
    } else {
        lemma_lines_shift(r + seq!['\n'], q, 0);
    }
}

pub proof fn lemma_single_line(line: Seq<char>)
    requires
        !line.contains('\n'),
    ensures
        lines_from(line, 0) == seq![line],
{
    lemma_next_newline(line, 0);
    if next_newline(line, 0) < line.len() {
        assert(line.contains(line[next_newline(line, 0)]));
    }
    assert(line.subrange(0, line.len() as int) =~= line);
}

/// A line that the parser passes over can be inserted at the start of a
/// config file or after any of its newlines, or taken out there, without
/// changing the hosts read.
pub proof fn lemma_ignorable_config_line(head: Seq<char>, line: Seq<char>, tail: Seq<char>)
    requires
        head.len() == 0 || head.last() == '\n',
        !line.contains('\n'),
        ignorable_line(line),
    ensures
        parse_config(head + line + seq!['\n'] + tail) == parse_config(head + tail),
{
    let e = Seq::<Seq<char>>::empty();
    lemma_single_line(line);
    lemma_lines_split(line, tail, 0);
    let lt = lines_from(tail, 0);
    assert(lines_from(line + seq!['\n'] + tail, 0) == seq![line] + lt);
    if head.len() == 0 {
        assert(head + line + seq!['\n'] + tail =~= line + seq!['\n'] + tail);
        assert(head + tail =~= tail);
        lemma_ignorable_line(e, line, lt);
        assert(e + seq![line] + lt =~= seq![line] + lt);
        assert(e + lt =~= lt);
    } else {
        let h0 = head.drop_last();
        assert(head + line + seq!['\n'] + tail =~= h0 + seq!['\n'] + (line + seq!['\n'] + tail));
        assert(head + tail =~= h0 + seq!['\n'] + tail);
        lemma_lines_split(h0, line + seq!['\n'] + tail, 0);
        lemma_lines_split(h0, tail, 0);
        let lh = lines_from(h0, 0);
        lemma_ignorable_line(lh, line, lt);
        assert(lh + (seq![line] + lt) =~= lh + seq![line] + lt);
    }
}

/// Within a block the first directive with a key wins: later ones with the
/// same key, and directives with other keys, make no difference.
pub proof fn lemma_first_directive_wins(
    before: Seq<(Seq<char>, Seq<char>)>,
    key: Seq<char>,
    value: Seq<char>,
    after: Seq<(Seq<char>, Seq<char>)>,
)
    requires
        forall|i: int| 0 <= i < before.len() ==> (#[trigger] before[i]).0 != key,
    ensures
        lookup(before + seq![(key, value)] + after, key) == Some(value),
        lookup(before, key) is None,
    decreases before.len(),
{
    let f = before + seq![(key, value)] + after;
    if before.len() == 0 {
        assert(f[0] == (key, value));
    } else {
        let b1 = before.drop_first();
        assert(f[0] == before[0]);
        assert(f.drop_first() =~= b1 + seq![(key, value)] + after);
        assert forall|i: int| 0 <= i < b1.len() implies (#[trigger] b1[i]).0 != key by {
            assert(b1[i] == before[i + 1]);
        }
        lemma_first_directive_wins(b1, key, value, after);
    }
}

/// Among the blocks that match a host, the first that sets a directive
/// gives its value: blocks before it that match set no value for it, and
/// blocks after it make no difference.
pub proof fn lemma_first_match_wins(before: Seq<SpecBlock>, b: SpecBlock, after: Seq<SpecBlock>, alias: Seq<char>, key: Seq<char>)
    requires
        forall|i: int| 0 <= i < before.len() ==> !(block_matches(#[trigger] before[i], alias) && lookup(before[i].fields, key) is Some),
        block_matches(b, alias),
        lookup(b.fields, key) is Some,
    ensures
        resolve(before + seq![b] + after, alias, key) == lookup(b.fields, key),
    decreases before.len(),
{
    let bs = before + seq![b] + after;
    if before.len() == 0 {
        assert(bs[0] == b);
    } else {
        let b1 = before.drop_first();
        assert(bs[0] == before[0]);
        assert(bs.drop_first() =~= b1 + seq![b] + after);
        assert forall|i: int| 0 <= i < b1.len() implies !(block_matches(#[trigger] b1[i], alias) && lookup(b1[i].fields, key) is Some) by {
            assert(b1[i] == before[i + 1]);
        }
        lemma_first_match_wins(b1, b, after, alias, key);
    }
}

/// Concrete patterns are listed in the order written: patterns that are
/// neither wildcards nor listed yet, and that differ from each other, are
/// added after the aliases listed so far, in their order.
pub proof fn lemma_aliases_in_order(acc: Seq<Seq<char>>, ps: Seq<Seq<char>>)
    requires
        all_concrete(ps),
        distinct(ps),
        forall|i: int| 0 <= i < ps.len() ==> !acc.contains(#[trigger] ps[i]),
    ensures
        add_aliases(acc, ps) == acc + ps,
    decreases ps.len(),
{
    if ps.len() == 0 {
        assert(acc + ps =~= acc);
    } else {
        let q = ps.drop_first();
        let a1 = acc.push(ps[0]);
        assert(!is_wildcard(ps[0]));
        assert(!acc.contains(ps[0]));
        assert(add_alias(acc, ps[0]) == a1);
        assert forall|i: int| 0 <= i < q.len() implies !a1.contains(#[trigger] q[i]) by {
            assert(q[i] == ps[i + 1]);
            assert(!acc.contains(ps[i + 1]));
            if a1.contains(q[i]) {
                let k = choose|k: int| 0 <= k < a1.len() && a1[k] == q[i];
                if k < acc.len() {
                    assert(acc[k] == a1[k]);
                    assert(acc.contains(q[i]));
                } else {
                    assert(ps[0] == ps[i + 1]);
                }
            }
        }
        assert forall|i: int| 0 <= i < q.len() implies !is_wildcard(#[trigger] q[i]) by {
            assert(q[i] == ps[i + 1]);
        }
        assert forall|i: int, j: int| 0 <= i < q.len() && 0 <= j < q.len() && i != j implies q[i] != q[j] by {
            assert(q[i] == ps[i + 1] && q[j] == ps[j + 1]);
        }
        lemma_aliases_in_order(a1, q);
        assert(a1 + q =~= acc + ps);
    }
}

/// The first host with this alias.
pub open spec fn host_with_alias(hs: Seq<SshHostView>, alias: Seq<char>) -> Option<SshHostView>
    decreases hs.len(),
{
    if hs.len() == 0 {
        None
    } else if hs[0].alias == alias {
        Some(hs[0])
    } else {
        host_with_alias(hs.drop_first(), alias)
    }
}

pub open spec fn no_entry_message(alias: Seq<char>) -> Seq<char> {
    "No entry for alias '"@ + alias + "' in ~/.ssh/config"@
}

/// The host of ~/.ssh/config with this alias, among the parsed hosts.
pub fn resolve_host(alias: &str, hosts: Vec<SshHost>) -> (r: Result<SshHost, String>)
    ensures
        match host_with_alias(hosts_view(hosts@), alias@) {
            Some(h) => r matches Ok(x) && x@ == h,
            None => r matches Err(e) && e@ == no_entry_message(alias@),
        },
{
    let mut hs = hosts;
    let ghost hv = hosts_view(hs@);
    let a = alias.to_owned();
    let mut i: usize = 0;
    proof {
        assert(hv.skip(0) =~= hv);
    }
    while i < hs.len()
        invariant
            i <= hs@.len(),
            a@ == alias@,
            hv == hosts_view(hs@),
            hv == hosts_view(hosts@),
            host_with_alias(hv.skip(i as int), alias@) == host_with_alias(hv, alias@),
        decreases hs@.len() - i,
    {
        proof {
            assert(hv.skip(i as int)[0] == hv[i as int]);
            assert(hv.skip(i as int).drop_first() =~= hv.skip(i + 1));
        }
        if hs[i].alias == a {
            proof {
                assert(hv[i as int].alias == alias@);
                assert(host_with_alias(hv.skip(i as int), alias@) == Some(hv[i as int]));
            }
            let ghost before = hs@;
            let h = hs.remove(i);
            proof {
                assert(h == before[i as int]);
                assert(h@ == hv[i as int]);
            }
            return Ok(h);
        }
        i = i + 1;
    }
    proof {
        assert(hv.skip(i as int) =~= Seq::<SshHostView>::empty());
    }
    let mut msg = "No entry for alias '".to_owned();
    msg.append(alias);
    msg.append("' in ~/.ssh/config");
    Err(msg)
}

/// A host to add to ~/.ssh/config.
#[derive(Debug)]
pub struct NewSshHost {
    pub alias: String,
    pub host_name: String,
    pub user: Option<String>,
    pub port: Option<String>,
    pub identity_file: Option<String>,
}

/// An optional directive line: written only when the value is given and
/// not blank, with the value trimmed.
pub open spec fn optional_line(label: Seq<char>, v: Option<Seq<char>>) -> Seq<char> {
    match v {
        Some(x) => if trim(x).len() > 0 {
            label + trim(x) + "\n"@
        } else {
            Seq::empty()
        },
        None => Seq::empty(),
    }
}

/// The text appended to ~/.ssh/config for a new host.
pub open spec fn host_block(alias: Seq<char>, host: NewSshHostView) -> Seq<char> {
    "\nHost "@ + alias + "\n  HostName "@ + trim(host.host_name) + "\n"@ + optional_line(
        "  User "@,
        host.user,
    ) + optional_line("  Port "@, host.port) + optional_line("  IdentityFile "@, host.identity_file)
}

pub struct NewSshHostView {
    pub alias: Seq<char>,
    pub host_name: Seq<char>,
    pub user: Option<Seq<char>>,
    pub port: Option<Seq<char>>,
    pub identity_file: Option<Seq<char>>,
}

impl View for NewSshHost {
    type V = NewSshHostView;

    open spec fn view(&self) -> NewSshHostView {
        NewSshHostView {
            alias: self.alias@,
            host_name: self.host_name@,
            user: self.user.deep_view(),
            port: self.port.deep_view(),
            identity_file: self.identity_file.deep_view(),
        }
    }
}

pub open spec fn duplicate_message(alias: Seq<char>) -> Seq<char> {
    "Host alias '"@ + alias + "' already exists in ~/.ssh/config"@
}

fn append_optional_line(block: &mut String, label: &str, v: &Option<String>)
    ensures
        final(block)@ == old(block)@ + optional_line(label@, v.deep_view()),
{
    match v {
        Some(x) => {
            let t = trim_str(x.as_str());
            if !t.as_str().is_empty() {
                block.append(label);
                block.append(t.as_str());
                block.append("\n");
            } else {
                assert(old(block)@ + Seq::<char>::empty() =~= old(block)@);
            }
        },
        None => {
            assert(old(block)@ + Seq::<char>::empty() =~= old(block)@);
        },
    }
}

/// The `Host` block to append for a new host, given the hosts already in
/// the file: refused when the trimmed alias is empty or already present.
pub fn new_host_block(host: &NewSshHost, existing: &Vec<SshHost>) -> (r: Result<String, String>)
    ensures
        trim(host.alias@).len() == 0 ==> (r matches Err(e) && e@ == "Alias cannot be empty"@),
        trim(host.alias@).len() > 0 && hosts_view(existing@).map_values(|h: SshHostView| h.alias).contains(
            trim(host.alias@),
        ) ==> (r matches Err(e) && e@ == duplicate_message(trim(host.alias@))),
        trim(host.alias@).len() > 0 && !hosts_view(existing@).map_values(|h: SshHostView| h.alias).contains(
            trim(host.alias@),
        ) ==> (r matches Ok(b) && b@ == host_block(trim(host.alias@), host@)),
{
    let alias = trim_str(host.alias.as_str());
    if alias.as_str().is_empty() {
        return Err("Alias cannot be empty".to_owned());
    }
    let ghost names = hosts_view(existing@).map_values(|h: SshHostView| h.alias);
    let mut i: usize = 0;
    while i < existing.len()
        invariant
            i <= existing@.len(),
            names == hosts_view(existing@).map_values(|h: SshHostView| h.alias),
            alias@ == trim(host.alias@),
            alias@.len() > 0,
            forall|j: int| 0 <= j < i ==> names[j] != alias@,
        decreases existing@.len() - i,
    {
        if existing[i].alias == alias {
            proof {
                assert(names[i as int] == alias@);
            }
            let mut msg = "Host alias '".to_owned();
            msg.append(alias.as_str());
            msg.append("' already exists in ~/.ssh/config");
            return Err(msg);
        }
        i = i + 1;
    }
    let mut block = "\nHost ".to_owned();
    block.append(alias.as_str());
    block.append("\n  HostName ");
    let hn = trim_str(host.host_name.as_str());
    block.append(hn.as_str());
    block.append("\n");
    append_optional_line(&mut block, "  User ", &host.user);
    append_optional_line(&mut block, "  Port ", &host.port);
    append_optional_line(&mut block, "  IdentityFile ", &host.identity_file);
    Ok(block)
}


proof fn lemma_trim_start_ws(pre: Seq<char>, x: Seq<char>)
    requires
        forall|i: int| 0 <= i < pre.len() ==> is_ws(#[trigger] pre[i]),
    ensures
        trim_start_of(pre + x, TrimClass::Whitespace) == trim_start_of(x, TrimClass::Whitespace),
    decreases pre.len(),
{
    if pre.len() > 0 {
        let rest = pre.drop_first();
        assert((pre + x)[0] == pre[0]);
        assert((pre + x).drop_first() =~= rest + x);
        assert forall|i: int| 0 <= i < rest.len() implies is_ws(#[trigger] rest[i]) by {
            assert(rest[i] == pre[i + 1]);
        }
        lemma_trim_start_ws(rest, x);
    } else {
        assert(pre + x =~= x);
    }
}

proof fn lemma_first_ws_after_word(w: Seq<char>, y: Seq<char>)
    requires
        forall|i: int| 0 <= i < w.len() ==> !is_ws(#[trigger] w[i]),
        y.len() == 0 || is_ws(y[0]),
    ensures
        first_ws_index(w + y) == w.len(),
    decreases w.len(),
{
    if w.len() > 0 {
        let rest = w.drop_first();
        assert((w + y)[0] == w[0]);
        assert((w + y).drop_first() =~= rest + y);
        assert forall|i: int| 0 <= i < rest.len() implies !is_ws(#[trigger] rest[i]) by {
            assert(rest[i] == w[i + 1]);
        }
        lemma_first_ws_after_word(rest, y);
    } else {
        assert(w + y =~= y);
    }
}

proof fn lemma_trim_start_shape(s: Seq<char>, cls: TrimClass)
    ensures
        trim_start_of(s, cls).len() == 0 || !trimmed_char(trim_start_of(s, cls)[0], cls),
    decreases s.len(),
{
    if s.len() > 0 && trimmed_char(s[0], cls) {
        lemma_trim_start_shape(s.drop_first(), cls);
    }
}

proof fn lemma_trim_end_shape(s: Seq<char>, cls: TrimClass)
    ensures
        trim_end_of(s, cls).len() <= s.len(),
        trim_end_of(s, cls) == s.take(trim_end_of(s, cls).len() as int),
        trim_end_of(s, cls).len() == 0 || !trimmed_char(trim_end_of(s, cls).last(), cls),
    decreases s.len(),
{
    if s.len() > 0 && trimmed_char(s.last(), cls) {
        lemma_trim_end_shape(s.drop_last(), cls);
        let r = trim_end_of(s, cls);
        assert(s.drop_last().take(r.len() as int) =~= s.take(r.len() as int));
    } else {
        assert(s.take(s.len() as int) =~= s);
    }
}

/// A trimmed text is empty or starts and ends with a non-whitespace character.
proof fn lemma_trimmed_ends(s: Seq<char>)
    ensures
        trim(s).len() > 0 ==> !is_ws(trim(s)[0]) && !is_ws(trim(s).last()),
{
    let a = trim_start_of(s, TrimClass::Whitespace);
    lemma_trim_start_shape(s, TrimClass::Whitespace);
    lemma_trim_end_shape(a, TrimClass::Whitespace);
    if trim(s).len() > 0 {
        assert(trim(s)[0] == a[0]);
    }
}

proof fn lemma_trim_fixed(v: Seq<char>)
    requires
        v.len() == 0 || (!is_ws(v[0]) && !is_ws(v.last())),
    ensures
        trim(v) == v,
{
}

proof fn lemma_no_quote_fixed(v: Seq<char>)
    requires
        !v.contains('"'),
    ensures
        trim_quotes(v) == v,
{
    if v.len() > 0 {
        assert(v[0] != '"') by {
            if v[0] == '"' {
                assert(v.contains(v[0]));
            }
        }
        assert(v.last() != '"') by {
            if v.last() == '"' {
                assert(v.contains(v[v.len() - 1]));
            }
        }
    }
}

/// A directive line written as indentation, keyword, one space and a
/// trimmed value without quotes is read back as that keyword, lowercased,
/// and that value.
proof fn lemma_directive_line(pre: Seq<char>, kw: Seq<char>, v: Seq<char>)
    requires
        forall|i: int| 0 <= i < pre.len() ==> is_ws(#[trigger] pre[i]),
        kw.len() > 0,
        kw[0] != '#',
        forall|i: int| 0 <= i < kw.len() ==> !is_ws(#[trigger] kw[i]),
        v.len() == 0 || (!is_ws(v[0]) && !is_ws(v.last())),
        !v.contains('"'),
    ensures
        line_directive(pre + kw + seq![' '] + v) == Some((lowercase(kw), v)),
{
    let ws = TrimClass::Whitespace;
    let x = kw + seq![' '] + v;
    assert(pre + kw + seq![' '] + v =~= pre + x);
    lemma_trim_start_ws(pre, x);
    assert(x[0] == kw[0]);
    assert(trim_start_of(x, ws) == x);
    assert(x =~= kw + (seq![' '] + v));
    lemma_trim_fixed(v);
    lemma_no_quote_fixed(v);
    let k = kw.len() as int;
    if v.len() > 0 {
        assert(x.last() == v.last());
        assert(trim_end_of(x, ws) == x);
        lemma_first_ws_after_word(kw, seq![' '] + v);
        assert(trim(pre + x) == x);
        assert(first_ws_index(x) == k);
        assert(x.take(k) =~= kw);
        assert(x.skip(k + 1) =~= v);
        assert(trim_quotes(trim(x.skip(k + 1))) == v);
    } else {
        assert(x.last() == ' ');
        assert(x.drop_last() =~= kw);
        assert(trim_end_of(kw, ws) == kw);
        assert(trim_end_of(x, ws) == kw);
        lemma_first_ws_after_word(kw, seq![]);
        assert(kw + seq![] =~= kw);
        assert(trim(pre + x) == kw);
        assert(first_ws_index(kw) == k);
        assert(kw.take(k) =~= kw);
        assert(v =~= Seq::<char>::empty());
    }
}

/// A nonempty text without whitespace is one word.
proof fn lemma_single_word(a: Seq<char>)
    requires
        a.len() > 0,
        forall|i: int| 0 <= i < a.len() ==> !is_ws(#[trigger] a[i]),
    ensures
        words(a) == seq![a],
{
    lemma_first_ws_after_word(a, seq![]);
    assert(a + seq![] =~= a);
    assert(!is_ws(a[0]));
    assert(first_ws_index(a) == a.len());
    assert(words(Seq::<char>::empty()) == Seq::<Seq<char>>::empty());
    assert(a.take(a.len() as int) =~= a);
    assert(a.skip(a.len() as int) =~= Seq::<char>::empty());
    assert(seq![a] + Seq::<Seq<char>>::empty() =~= seq![a]);
}

proof fn lemma_aliases_push(acc: Seq<Seq<char>>, bs: Seq<SpecBlock>, b: SpecBlock)
    ensures
        aliases_after(acc, bs.push(b)) == add_aliases(aliases_after(acc, bs), b.patterns),
    decreases bs.len(),
{
    let bp = bs.push(b);
    if bs.len() == 0 {
        assert(bp[0] == b);
        assert(bp.drop_first() =~= Seq::<SpecBlock>::empty());
        let x = add_aliases(acc, b.patterns);
        assert(aliases_after(x, Seq::<SpecBlock>::empty()) == x);
        assert(aliases_after(acc, bp) == aliases_after(x, bp.drop_first()));
    } else {
        assert(bp[0] == bs[0]);
        assert(bp.drop_first() =~= bs.drop_first().push(b));
        assert(aliases_after(acc, bp) == aliases_after(add_aliases(acc, bs[0].patterns), bp.drop_first()));
        lemma_aliases_push(add_aliases(acc, bs[0].patterns), bs.drop_first(), b);
    }
}

proof fn lemma_resolve_push(bs: Seq<SpecBlock>, b: SpecBlock, alias: Seq<char>, key: Seq<char>)
    ensures
        resolve(bs.push(b), alias, key) == if resolve(bs, alias, key) is Some {
            resolve(bs, alias, key)
        } else if block_matches(b, alias) && lookup(b.fields, key) is Some {
            lookup(b.fields, key)
        } else {
            None
        },
    decreases bs.len(),
{
    let bp = bs.push(b);
    if bs.len() == 0 {
        assert(bp[0] == b);
        assert(bp.drop_first() =~= Seq::<SpecBlock>::empty());
        assert(resolve(Seq::<SpecBlock>::empty(), alias, key) is None);
    } else {
        assert(bp[0] == bs[0]);
        assert(bp.drop_first() =~= bs.drop_first().push(b));
        assert(bs.drop_first().push(b).len() > 0);
        lemma_resolve_push(bs.drop_first(), b, alias, key);
    }
}

proof fn lemma_resolve_none(bs: Seq<SpecBlock>, alias: Seq<char>, key: Seq<char>)
    requires
        forall|i: int| 0 <= i < bs.len() ==> !block_matches(#[trigger] bs[i], alias),
    ensures
        resolve(bs, alias, key) is None,
    decreases bs.len(),
{
    if bs.len() > 0 {
        let rest = bs.drop_first();
        assert(!block_matches(bs[0], alias));
        assert forall|i: int| 0 <= i < rest.len() implies !block_matches(#[trigger] rest[i], alias) by {
            assert(rest[i] == bs[i + 1]);
        }
        lemma_resolve_none(rest, alias, key);
    }
}

proof fn lemma_step_keeps_pattern(bs: Seq<SpecBlock>, line: Seq<char>, x: Seq<char>)
    requires
        in_some_block(bs, x),
    ensures
        in_some_block(step_line(bs, line), x),
{
    let b = choose|b: int| 0 <= b < bs.len() && #[trigger] bs[b].patterns.contains(x);
    let t = step_line(bs, line);
    assert(t[b].patterns == bs[b].patterns);
    assert(t[b].patterns.contains(x));
}

proof fn lemma_after_keeps_pattern(bs: Seq<SpecBlock>, lines: Seq<Seq<char>>, x: Seq<char>)
    requires
        in_some_block(bs, x),
    ensures
        in_some_block(blocks_after(bs, lines), x),
    decreases lines.len(),
{
    if lines.len() > 0 {
        lemma_step_keeps_pattern(bs, lines[0], x);
        lemma_after_keeps_pattern(step_line(bs, lines[0]), lines.drop_first(), x);
    }
}

/// A value given and not blank, trimmed.
pub open spec fn given_value(v: Option<Seq<char>>) -> Option<Seq<char>> {
    match v {
        Some(x) => if trim(x).len() > 0 {
            Some(trim(x))
        } else {
            None
        },
        None => None,
    }
}

/// The directives after an optional one, written only when given.
pub open spec fn with_given(fields: Seq<(Seq<char>, Seq<char>)>, key: Seq<char>, v: Option<Seq<char>>) -> Seq<(Seq<char>, Seq<char>)> {
    match given_value(v) {
        Some(x) => fields.push((key, x)),
        None => fields,
    }
}

/// A value that reads back as written: no newline and no double quote.
pub open spec fn plain_value(v: Option<Seq<char>>) -> bool {
    v matches Some(x) ==> !trim(x).contains('\n') && !trim(x).contains('"')
}

proof fn lemma_optional_line(
    ps: Seq<Seq<char>>,
    fs: Seq<(Seq<char>, Seq<char>)>,
    bs: Seq<SpecBlock>,
    label: Seq<char>,
    kw: Seq<char>,
    v: Option<Seq<char>>,
    q: Seq<char>,
)
    requires
        label == seq![' ', ' '] + kw + seq![' '],
        kw.len() > 0,
        kw[0] != '#',
        forall|i: int| 0 <= i < kw.len() ==> !is_ws(#[trigger] kw[i]),
        lowercase(kw) != "host"@,
        plain_value(v),
    ensures
        blocks_after(bs.push(SpecBlock { patterns: ps, fields: fs }), lines_from(optional_line(label, v) + q, 0))
            == blocks_after(
            bs.push(SpecBlock { patterns: ps, fields: with_given(fs, lowercase(kw), v) }),
            lines_from(q, 0),
        ),
{
    reveal_strlit("\n");
    let b0 = bs.push(SpecBlock { patterns: ps, fields: fs });
    if given_value(v) is Some {
        let x = v->0;
        let tx = trim(x);
        let line = label + tx;
        assert(optional_line(label, v) + q =~= line + seq!['\n'] + q);
        lemma_trimmed_ends(x);
        assert(!line.contains('\n')) by {
            if line.contains('\n') {
                let i = choose|i: int| 0 <= i < line.len() && line[i] == '\n';
                if i < label.len() {
                    if 2 <= i < 2 + kw.len() {
                        assert(label[i] == kw[i - 2]);
                    }
                    assert(is_ws(label[i]));
                } else {
                    assert(tx[i - label.len()] == '\n');
                    assert(tx.contains('\n'));
                }
            }
        }
        lemma_single_line(line);
        lemma_lines_split(line, q, 0);
        let lq = lines_from(q, 0);
        assert((seq![line] + lq)[0] == line);
        assert((seq![line] + lq).drop_first() =~= lq);
        assert(line =~= seq![' ', ' '] + kw + seq![' '] + tx);
        lemma_directive_line(seq![' ', ' '], kw, tx);
        assert(step_line(b0, line) =~= bs.push(
            SpecBlock { patterns: ps, fields: with_given(fs, lowercase(kw), v) },
        ));
    } else {
        assert(optional_line(label, v) + q =~= q);
        assert(with_given(fs, lowercase(kw), v) == fs);
    }
}

/// An alias that a `Host` line names as it is written: not empty, without
/// whitespace, wildcards or double quotes.
pub open spec fn plain_alias(a: Seq<char>) -> bool {
    &&& a.len() > 0
    &&& forall|i: int| 0 <= i < a.len() ==> !is_ws(#[trigger] a[i])
    &&& !is_wildcard(a)
    &&& !a.contains('"')
}

/// The host read back from the block added for a new host.
pub open spec fn added_host(alias: Seq<char>, host: NewSshHostView) -> SshHostView {
    SshHostView {
        alias: alias,
        host_name: Some(trim(host.host_name)),
        user: given_value(host.user),
        port: given_value(host.port),
        identity_file: given_value(host.identity_file),
        proxy_command: None,
    }
}

/// What follows the `Host` line of an added block.
spec fn after_host_line(host: NewSshHostView) -> Seq<char> {
    "  HostName "@ + trim(host.host_name) + "\n"@ + optional_line("  User "@, host.user) + optional_line(
        "  Port "@,
        host.port,
    ) + optional_line("  IdentityFile "@, host.identity_file)
}

proof fn lemma_keywords()
    ensures
        lowercase("Host"@) == "host"@,
        lowercase("HostName"@) == "hostname"@,
        lowercase("User"@) == "user"@,
        lowercase("Port"@) == "port"@,
        lowercase("IdentityFile"@) == "identityfile"@,
        "  User "@ == seq![' ', ' '] + "User"@ + seq![' '],
        "  Port "@ == seq![' ', ' '] + "Port"@ + seq![' '],
        "  IdentityFile "@ == seq![' ', ' '] + "IdentityFile"@ + seq![' '],
        "hostname"@ != "host"@,
        "user"@ != "host"@,
        "port"@ != "host"@,
        "identityfile"@ != "host"@,
        "hostname"@ != "user"@,
        "hostname"@ != "port"@,
        "hostname"@ != "identityfile"@,
        "hostname"@ != "proxycommand"@,
        "user"@ != "port"@,
        "user"@ != "identityfile"@,
        "user"@ != "proxycommand"@,
        "port"@ != "identityfile"@,
        "port"@ != "proxycommand"@,
        "identityfile"@ != "proxycommand"@,
        "Host"@.len() > 0 && "Host"@[0] != '#' && forall|i: int| 0 <= i < "Host"@.len() ==> !is_ws(#[trigger] "Host"@[i]),
        "HostName"@.len() > 0 && "HostName"@[0] != '#' && forall|i: int|
            0 <= i < "HostName"@.len() ==> !is_ws(#[trigger] "HostName"@[i]),
        "User"@.len() > 0 && "User"@[0] != '#' && forall|i: int| 0 <= i < "User"@.len() ==> !is_ws(#[trigger] "User"@[i]),
        "Port"@.len() > 0 && "Port"@[0] != '#' && forall|i: int| 0 <= i < "Port"@.len() ==> !is_ws(#[trigger] "Port"@[i]),
        "IdentityFile"@.len() > 0 && "IdentityFile"@[0] != '#' && forall|i: int|
            0 <= i < "IdentityFile"@.len() ==> !is_ws(#[trigger] "IdentityFile"@[i]),
{
    reveal_strlit("Host");
    reveal_strlit("host");
    reveal_strlit("HostName");
    reveal_strlit("hostname");
    reveal_strlit("User");
    reveal_strlit("user");
    reveal_strlit("Port");
    reveal_strlit("port");
    reveal_strlit("IdentityFile");
    reveal_strlit("identityfile");
    reveal_strlit("proxycommand");
    reveal_strlit("  User ");
    reveal_strlit("  Port ");
    reveal_strlit("  IdentityFile ");
    assert(lowercase("Host"@) =~= "host"@);
    assert(lowercase("HostName"@) =~= "hostname"@);
    assert(lowercase("User"@) =~= "user"@);
    assert(lowercase("Port"@) =~= "port"@);
    assert(lowercase("IdentityFile"@) =~= "identityfile"@);
    assert("  User "@ =~= seq![' ', ' '] + "User"@ + seq![' ']);
    assert("  Port "@ =~= seq![' ', ' '] + "Port"@ + seq![' ']);
    assert("  IdentityFile "@ =~= seq![' ', ' '] + "IdentityFile"@ + seq![' ']);
    assert("user"@[0] != "port"@[0]);
    assert("identityfile"@[0] != "proxycommand"@[0]);
}

/// Appending the block of a new host adds, after the blocks of the file, a
/// block for the alias alone; the rest of the added text follows.
proof fn lemma_host_line(content: Seq<char>, alias: Seq<char>, host: NewSshHostView)
    requires
        plain_alias(alias),
    ensures
        config_blocks(content + host_block(alias, host)) == blocks_after(
            config_blocks(content).push(SpecBlock { patterns: seq![alias], fields: seq![] }),
            lines_from(after_host_line(host), 0),
        ),
{
    reveal_strlit("\nHost ");
    reveal_strlit("Host ");
    reveal_strlit("Host");
    reveal_strlit("\n  HostName ");
    reveal_strlit("  HostName ");
    lemma_keywords();
    let e = Seq::<Seq<char>>::empty();
    let l1 = "Host"@ + seq![' '] + alias;
    let r = after_host_line(host);
    assert(content + host_block(alias, host) =~= content + seq!['\n'] + (l1 + seq!['\n'] + r));
    assert(!l1.contains('\n')) by {
        if l1.contains('\n') {
            let i = choose|i: int| 0 <= i < l1.len() && l1[i] == '\n';
            if i < 4 {
                assert(l1[i] == "Host"@[i]);
            } else if i > 4 {
                assert(l1[i] == alias[i - 5]);
            }
        }
    }
    lemma_lines_split(content, l1 + seq!['\n'] + r, 0);
    lemma_single_line(l1);
    lemma_lines_split(l1, r, 0);
    let lc = lines_from(content, 0);
    let lr = lines_from(r, 0);
    lemma_blocks_after_concat(Seq::empty(), lc, seq![l1] + lr);
    assert((seq![l1] + lr)[0] == l1);
    assert((seq![l1] + lr).drop_first() =~= lr);
    assert(l1 =~= Seq::<char>::empty() + "Host"@ + seq![' '] + alias);
    lemma_directive_line(Seq::empty(), "Host"@, alias);
    lemma_single_word(alias);
}

/// A block appended for a new host is read back: when the alias is plain,
/// the values hold no newline or double quote, and no `Host` pattern of the
/// file matches the alias, the hosts read afterwards are those read before
/// and, last and only there under that alias, the new host with exactly the
/// directives written.
pub proof fn lemma_added_host_read_back(content: Seq<char>, host: NewSshHostView)
    requires
        plain_alias(trim(host.alias)),
        plain_value(Some(host.host_name)),
        plain_value(host.user),
        plain_value(host.port),
        plain_value(host.identity_file),
        forall|i: int|
            0 <= i < config_blocks(content).len() ==> !block_matches(
                #[trigger] config_blocks(content)[i],
                trim(host.alias),
            ),
    ensures
        parse_config(content + host_block(trim(host.alias), host)) == parse_config(content).push(
            added_host(trim(host.alias), host),
        ),
        forall|i: int|
            0 <= i < parse_config(content).len() ==> (#[trigger] parse_config(content)[i]).alias != trim(
                host.alias,
            ),
{
    reveal_strlit("\n");
    reveal_strlit("  HostName ");
    reveal_strlit("HostName");
    lemma_keywords();
    let a = trim(host.alias);
    let hn = trim(host.host_name);
    let bs1 = config_blocks(content);
    lemma_host_line(content, a, host);
    let u = optional_line("  User "@, host.user);
    let p = optional_line("  Port "@, host.port);
    let i = optional_line("  IdentityFile "@, host.identity_file);
    let l2 = seq![' ', ' '] + "HostName"@ + seq![' '] + hn;
    assert(after_host_line(host) =~= l2 + seq!['\n'] + (u + (p + (i + Seq::<char>::empty()))));
    lemma_trimmed_ends(host.host_name);
    assert(!l2.contains('\n')) by {
        if l2.contains('\n') {
            let k = choose|k: int| 0 <= k < l2.len() && l2[k] == '\n';
            if k >= 11 {
                assert(hn[k - 11] == '\n');
                assert(hn.contains('\n'));
            } else if 2 <= k < 10 {
                assert(l2[k] == "HostName"@[k - 2]);
            }
        }
    }
    lemma_single_line(l2);
    lemma_lines_split(l2, u + (p + (i + Seq::<char>::empty())), 0);
    let rest = lines_from(u + (p + (i + Seq::<char>::empty())), 0);
    assert((seq![l2] + rest)[0] == l2);
    assert((seq![l2] + rest).drop_first() =~= rest);
    lemma_directive_line(seq![' ', ' '], "HostName"@, hn);
    let f0 = seq![("hostname"@, hn)];
    let b0 = bs1.push(SpecBlock { patterns: seq![a], fields: seq![] });
    assert(Seq::<(Seq<char>, Seq<char>)>::empty().push(("hostname"@, hn)) =~= f0);
    assert(line_directive(l2) == Some(("hostname"@, hn)));
    assert(b0.last().fields =~= Seq::<(Seq<char>, Seq<char>)>::empty());
    assert(step_line(b0, l2) =~= bs1.push(SpecBlock { patterns: seq![a], fields: f0 }));
    let f1 = with_given(f0, "user"@, host.user);
    let f2 = with_given(f1, "port"@, host.port);
    let f3 = with_given(f2, "identityfile"@, host.identity_file);
    lemma_optional_line(seq![a], f0, bs1, "  User "@, "User"@, host.user, p + (i + Seq::<char>::empty()));
    lemma_optional_line(seq![a], f1, bs1, "  Port "@, "Port"@, host.port, i + Seq::<char>::empty());
    lemma_optional_line(seq![a], f2, bs1, "  IdentityFile "@, "IdentityFile"@, host.identity_file, Seq::<char>::empty());
    let bf = SpecBlock { patterns: seq![a], fields: f3 };
    let bs2 = bs1.push(bf);
    lemma_single_line(Seq::<char>::empty());
    assert(line_directive(Seq::<char>::empty()) is None);
    let ee = seq![Seq::<char>::empty()];
    assert(ee.drop_first() =~= Seq::<Seq<char>>::empty());
    assert(blocks_after(bs2, ee) == blocks_after(step_line(bs2, ee[0]), ee.drop_first()));
    assert(blocks_after(bs2, lines_from(Seq::<char>::empty(), 0)) == bs2);
    assert(i + Seq::<char>::empty() =~= i);
    assert(blocks_after(b0, lines_from(after_host_line(host), 0)) == blocks_after(step_line(b0, l2), rest));
    assert(config_blocks(content + host_block(a, host)) == bs2);
    // The aliases: those of the file, then the new one.
    let al = concrete_aliases(bs1);
    lemma_aliases_push(seq![], bs1, bf);
    lemma_aliases_after(seq![], bs1);
    crate::glob::lemma_literal_pattern(a, a);
    assert(!al.contains(a)) by {
        if al.contains(a) {
            assert(in_some_block(bs1, a));
            let b = choose|b: int| 0 <= b < bs1.len() && #[trigger] bs1[b].patterns.contains(a);
            let k = choose|k: int| 0 <= k < bs1[b].patterns.len() && bs1[b].patterns[k] == a;
            assert(glob_matches(bs1[b].patterns[k], a));
            assert(block_matches(bs1[b], a));
        }
    }
    assert(seq![a][0] == a);
    assert(seq![a].drop_first() =~= Seq::<Seq<char>>::empty());
    assert(add_aliases(al, seq![a]) == add_aliases(add_alias(al, a), seq![a].drop_first()));
    assert(add_aliases(al.push(a), Seq::<Seq<char>>::empty()) == al.push(a));
    assert(add_alias(al, a) == al.push(a));
    assert(concrete_aliases(bs2) == al.push(a));
    // The hosts of the file keep their directives.
    assert forall|x: Seq<char>| al.contains(x) implies host_for(bs2, x) == host_for(bs1, x) by {
        assert(x != a);
        crate::glob::lemma_literal_pattern(a, x);
        assert(!block_matches(bf, x)) by {
            if block_matches(bf, x) {
                let k = choose|k: int| 0 <= k < bf.patterns.len() && glob_matches(#[trigger] bf.patterns[k], x);
                assert(bf.patterns[k] == a);
            }
        }
        lemma_resolve_push(bs1, bf, x, "hostname"@);
        lemma_resolve_push(bs1, bf, x, "user"@);
        lemma_resolve_push(bs1, bf, x, "port"@);
        lemma_resolve_push(bs1, bf, x, "identityfile"@);
        lemma_resolve_push(bs1, bf, x, "proxycommand"@);
    }
    // The new host has what was written.
    assert(glob_matches(bf.patterns[0], a));
    assert(block_matches(bf, a));
    lemma_resolve_none(bs1, a, "hostname"@);
    lemma_resolve_none(bs1, a, "user"@);
    lemma_resolve_none(bs1, a, "port"@);
    lemma_resolve_none(bs1, a, "identityfile"@);
    lemma_resolve_none(bs1, a, "proxycommand"@);
    lemma_resolve_push(bs1, bf, a, "hostname"@);
    lemma_resolve_push(bs1, bf, a, "user"@);
    lemma_resolve_push(bs1, bf, a, "port"@);
    lemma_resolve_push(bs1, bf, a, "identityfile"@);
    lemma_resolve_push(bs1, bf, a, "proxycommand"@);
    lemma_lookups(f0, hn, host);
    assert(host_for(bs2, a) == added_host(a, host));
    assert(hosts_of(bs2) =~= hosts_of(bs1).push(added_host(a, host)));
    assert forall|k: int| 0 <= k < parse_config(content).len() implies (#[trigger] parse_config(
        content,
    )[k]).alias != a by {
        assert(parse_config(content)[k].alias == al[k]);
        assert(al.contains(al[k]));
    }
}

proof fn lemma_lookups(f0: Seq<(Seq<char>, Seq<char>)>, hn: Seq<char>, host: NewSshHostView)
    requires
        f0 == seq![("hostname"@, hn)],
    ensures
        ({
            let f3 = with_given(
                with_given(with_given(f0, "user"@, host.user), "port"@, host.port),
                "identityfile"@,
                host.identity_file,
            );
            &&& lookup(f3, "hostname"@) == Some(hn)
            &&& lookup(f3, "user"@) == given_value(host.user)
            &&& lookup(f3, "port"@) == given_value(host.port)
            &&& lookup(f3, "identityfile"@) == given_value(host.identity_file)
            &&& lookup(f3, "proxycommand"@) is None
        }),
{
    lemma_keywords();
    let f1 = with_given(f0, "user"@, host.user);
    let f2 = with_given(f1, "port"@, host.port);
    assert(f0.drop_first() =~= Seq::<(Seq<char>, Seq<char>)>::empty());
    assert(lookup(f0.drop_first(), "user"@) is None);
    assert(lookup(f0.drop_first(), "port"@) is None);
    assert(lookup(f0.drop_first(), "identityfile"@) is None);
    assert(lookup(f0.drop_first(), "proxycommand"@) is None);
    assert(lookup(f0, "hostname"@) == Some(hn));
    assert(lookup(f0, "user"@) is None);
    assert(lookup(f0, "port"@) is None);
    assert(lookup(f0, "identityfile"@) is None);
    assert(lookup(f0, "proxycommand"@) is None);
    if given_value(host.user) is Some {
        let e = ("user"@, given_value(host.user)->0);
        lemma_lookup_push(f0, e, "hostname"@);
        lemma_lookup_push(f0, e, "user"@);
        lemma_lookup_push(f0, e, "port"@);
        lemma_lookup_push(f0, e, "identityfile"@);
        lemma_lookup_push(f0, e, "proxycommand"@);
    }
    if given_value(host.port) is Some {
        let e = ("port"@, given_value(host.port)->0);
        lemma_lookup_push(f1, e, "hostname"@);
        lemma_lookup_push(f1, e, "user"@);
        lemma_lookup_push(f1, e, "port"@);
        lemma_lookup_push(f1, e, "identityfile"@);
        lemma_lookup_push(f1, e, "proxycommand"@);
    }
    if given_value(host.identity_file) is Some {
        let e = ("identityfile"@, given_value(host.identity_file)->0);
        lemma_lookup_push(f2, e, "hostname"@);
        lemma_lookup_push(f2, e, "user"@);
        lemma_lookup_push(f2, e, "port"@);
        lemma_lookup_push(f2, e, "identityfile"@);
        lemma_lookup_push(f2, e, "proxycommand"@);
    }
}

/// Once the block of a new host is appended, its alias is listed among the
/// hosts read, so a second add under the same alias is refused as a
/// duplicate.
pub proof fn lemma_added_alias_listed(content: Seq<char>, host: NewSshHostView)
    requires
        plain_alias(trim(host.alias)),
    ensures
        parse_config(content + host_block(trim(host.alias), host)).map_values(|h: SshHostView| h.alias).contains(
            trim(host.alias),
        ),
{
    let a = trim(host.alias);
    let b0 = config_blocks(content).push(SpecBlock { patterns: seq![a], fields: seq![] });
    lemma_host_line(content, a, host);
    assert(b0[b0.len() - 1].patterns[0] == a);
    assert(b0[b0.len() - 1].patterns.contains(a));
    assert(in_some_block(b0, a));
    lemma_after_keeps_pattern(b0, lines_from(after_host_line(host), 0), a);
    lemma_listed_aliases(content + host_block(a, host));
}

/// A directive line is read as its keyword, lowercased, and its value,
/// whether the value is written plain or in double quotes; a line that is
/// blank or whose first non-blank character is `#` is no directive.
pub proof fn lemma_directive_forms(pre: Seq<char>, kw: Seq<char>, v: Seq<char>, rest: Seq<char>)
    requires
        forall|i: int| 0 <= i < pre.len() ==> is_ws(#[trigger] pre[i]),
        kw.len() > 0,
        kw[0] != '#',
        forall|i: int| 0 <= i < kw.len() ==> !is_ws(#[trigger] kw[i]),
        v.len() > 0,
        !is_ws(v[0]),
        !is_ws(v.last()),
        !v.contains('"'),
    ensures
        line_directive(pre + kw + seq![' '] + v) == Some((lowercase(kw), v)),
        line_directive(pre + kw + seq![' '] + seq!['"'] + v + seq!['"']) == Some((lowercase(kw), v)),
        line_directive(pre) is None,
        line_directive(pre + seq!['#'] + rest) is None,
{
    lemma_directive_line(pre, kw, v);
    lemma_directive_line_quoted(pre, kw, v);
    lemma_trim_start_ws(pre, Seq::<char>::empty());
    assert(pre + Seq::<char>::empty() =~= pre);
    let c = seq!['#'] + rest;
    lemma_trim_start_ws(pre, c);
    assert(pre + seq!['#'] + rest =~= pre + c);
    assert(c[0] == '#');
    lemma_trim_end_shape(c, TrimClass::Whitespace);
    assert(trim_start_of(c, TrimClass::Whitespace) == c);
    let t = trim_end_of(c, TrimClass::Whitespace);
    assert(t.len() > 0) by {
        if t.len() == 0 {
            assert(trim_end_of(c, TrimClass::Whitespace) == c.take(0));
            lemma_trim_end_all_ws(c);
        }
    }
    assert(t[0] == c[0]);
}

proof fn lemma_trim_end_all_ws(c: Seq<char>)
    requires
        c.len() > 0,
        !is_ws(c[0]),
    ensures
        trim_end_of(c, TrimClass::Whitespace).len() > 0,
    decreases c.len(),
{
    if c.len() > 1 && is_ws(c.last()) {
        assert(c.drop_last()[0] == c[0]);
        lemma_trim_end_all_ws(c.drop_last());
    }
}

proof fn lemma_directive_line_quoted(pre: Seq<char>, kw: Seq<char>, v: Seq<char>)
    requires
        forall|i: int| 0 <= i < pre.len() ==> is_ws(#[trigger] pre[i]),
        kw.len() > 0,
        kw[0] != '#',
        forall|i: int| 0 <= i < kw.len() ==> !is_ws(#[trigger] kw[i]),
        v.len() > 0,
        !v.contains('"'),
    ensures
        line_directive(pre + kw + seq![' '] + seq!['"'] + v + seq!['"']) == Some((lowercase(kw), v)),
{
    let ws = TrimClass::Whitespace;
    let qc = TrimClass::Char('"');
    let q = seq!['"'] + v + seq!['"'];
    let x = kw + seq![' '] + q;
    assert(pre + kw + seq![' '] + seq!['"'] + v + seq!['"'] =~= pre + x);
    lemma_trim_start_ws(pre, x);
    assert(x[0] == kw[0]);
    assert(trim_start_of(x, ws) == x);
    assert(x.last() == '"');
    assert(trim_end_of(x, ws) == x);
    assert(x =~= kw + (seq![' '] + q));
    lemma_first_ws_after_word(kw, seq![' '] + q);
    let k = kw.len() as int;
    assert(x.take(k) =~= kw);
    assert(x.skip(k + 1) =~= q);
    assert(q[0] == '"' && q.last() == '"');
    assert(trim_start_of(q, ws) == q);
    assert(trim_end_of(q, ws) == q);
    assert(v[0] != '"') by {
        assert(v.contains(v[0]));
    }
    assert(v.last() != '"') by {
        assert(v.contains(v[v.len() - 1]));
    }
    assert(q.drop_first() =~= v + seq!['"']);
    let w = v + seq!['"'];
    assert(w[0] == v[0]);
    assert(trim_start_of(w, qc) == w);
    assert(w.drop_last() =~= v);
    assert(trim_end_of(v, qc) == v);
    assert(trim_end_of(w, qc) == v);
}

} // verus!
