//! What the launcher reads from the git command line: the error of a failed
//! command, and the local state of a repository from
//! `git status --porcelain=v1 --branch`.

use vstd::prelude::*;

use crate::text::{
    chars_of, decimal, find_char, find_str, has_prefix, join_strs, join_with, lines_of,
    parse_u32, parse_u32_chars, push_char, push_decimal, push_str, split_chars, split_lines,
    split_on, starts_with, string_from, string_of_chars, trim, trim_chars, trim_str, index_of,
    find_seq, digit_char, digits_value, all_digits,
};

verus! {

/// What a git command printed and how it exited.
#[derive(Debug, Clone)]
pub struct GitOutput {
    pub stdout: String,
    pub stderr: String,
    pub code: i32,
}

/// Parsed git state for a repository, from one `status --porcelain=v1 --branch`.
#[derive(Debug, Clone)]
pub struct GitStatus {
    pub commit: Option<String>,
    pub branch: Option<String>,
    pub ahead: u32,
    pub behind: u32,
    pub dirty: bool,
}

/// Decimal notation of a signed number.
pub open spec fn signed_decimal(n: int) -> Seq<char> {
    if n < 0 {
        seq!['-'] + decimal((-n) as nat)
    } else {
        decimal(n as nat)
    }
}

/// The error of a git command, if it failed: its trimmed error output, or
/// its trimmed standard output when the error output is blank, or, when
/// both are blank, the command and its exit code.
pub open spec fn git_failure(out: GitOutput, args: Seq<Seq<char>>) -> Option<Seq<char>> {
    if out.code == 0 {
        None
    } else {
        let message = if trim(out.stderr@).len() == 0 {
            trim(out.stdout@)
        } else {
            trim(out.stderr@)
        };
        Some(
            if message.len() == 0 {
                "git "@ + join_with(args, " "@) + " exited with "@ + signed_decimal(out.code as int)
            } else {
                message
            },
        )
    }
}

/// The output of a git command run with `args`, or its error when it exited
/// with a non-zero code.
pub fn git_or(out: GitOutput, args: &[&str]) -> (r: Result<GitOutput, String>)
    ensures
        match git_failure(out, args@.map_values(|a: &str| a@)) {
            None => r == Ok::<GitOutput, String>(out),
            Some(m) => r matches Err(e) && e@ == m,
        },
{
    if out.code == 0 {
        return Ok(out);
    }
    let err = trim_str(out.stderr.as_str());
    let message = if err.as_str().is_empty() {
        trim_str(out.stdout.as_str())
    } else {
        err
    };
    if message.as_str().is_empty() {
        let mut m = string_from("git ");
        let joined = join_strs(args, " ");
        push_str(&mut m, joined.as_str());
        push_str(&mut m, " exited with ");
        if out.code < 0 {
            push_char(&mut m, '-');
            push_decimal(&mut m, (-(out.code as i64)) as u64);
        } else {
            push_decimal(&mut m, out.code as u64);
        }
        assert(m@ =~= "git "@ + join_with(args@.map_values(|a: &str| a@), " "@) + " exited with "@
            + signed_decimal(out.code as int));
        Err(m)
    } else {
        Err(message)
    }
}

/// The state gathered from porcelain status lines.
pub struct PorcelainState {
    pub branch: Option<Seq<char>>,
    pub ahead: u32,
    pub behind: u32,
    pub dirty: bool,
}

/// The count after `ahead ` or `behind `: 0 when it does not parse.
pub open spec fn count_or_zero(s: Seq<char>) -> u32 {
    match parse_u32(trim(s)) {
        Some(n) => n,
        None => 0,
    }
}

/// One comma-separated part of the `[ahead N, behind M]` annotation.
pub open spec fn apply_part(st: PorcelainState, part: Seq<char>) -> PorcelainState {
    let p = trim(part);
    if starts_with(p, "ahead "@) {
        PorcelainState { ahead: count_or_zero(p.skip(6)), ..st }
    } else if starts_with(p, "behind "@) {
        PorcelainState { behind: count_or_zero(p.skip(7)), ..st }
    } else {
        st
    }
}

/// The parts, in order.
pub open spec fn apply_parts(st: PorcelainState, parts: Seq<Seq<char>>) -> PorcelainState
    decreases parts.len(),
{
    if parts.len() == 0 {
        st
    } else {
        apply_part(apply_parts(st, parts.drop_last()), parts.last())
    }
}

/// The comma-separated parts inside the first `[`...`]` of the upstream
/// text (up to its end when `]` is missing); none without `[`.
pub open spec fn bracket_parts(up: Seq<char>) -> Seq<Seq<char>> {
    match index_of(up, '[') {
        None => Seq::empty(),
        Some(start) => {
            let after = up.skip(start + 1);
            let inner = match index_of(after, ']') {
                Some(end) => after.take(end),
                None => after,
            };
            split_on(inner, ',')
        },
    }
}

/// A `## ` header: the branch before `...`, and the counts of the
/// upstream annotation after it.
pub open spec fn apply_header(st: PorcelainState, rest: Seq<char>) -> PorcelainState {
    match find_seq(rest, "..."@) {
        None => PorcelainState { branch: Some(rest), ..st },
        Some(i) => apply_parts(
            PorcelainState { branch: Some(rest.take(i)), ..st },
            bracket_parts(rest.skip(i + 3)),
        ),
    }
}

/// One status line: a `## ` header, or any other non-blank line, which
/// marks a change in the work tree.
pub open spec fn apply_line(st: PorcelainState, line: Seq<char>) -> PorcelainState {
    if starts_with(line, "## "@) {
        apply_header(st, line.skip(3))
    } else if trim(line).len() > 0 {
        PorcelainState { dirty: true, ..st }
    } else {
        st
    }
}

/// The lines, in order.
pub open spec fn apply_lines(st: PorcelainState, lines: Seq<Seq<char>>) -> PorcelainState
    decreases lines.len(),
{
    if lines.len() == 0 {
        st
    } else {
        apply_line(apply_lines(st, lines.drop_last()), lines.last())
    }
}

/// The state described by the output of `git status --porcelain=v1 --branch`.
pub open spec fn porcelain_state(stdout: Seq<char>) -> PorcelainState {
    apply_lines(
        PorcelainState { branch: None, ahead: 0, behind: 0, dirty: false },
        split_lines(stdout),
    )
}

/// Exec form of the gathered state.
struct Gathered {
    branch: Option<Vec<char>>,
    ahead: u32,
    behind: u32,
    dirty: bool,
}

impl View for Gathered {
    type V = PorcelainState;

    closed spec fn view(&self) -> PorcelainState {
        PorcelainState {
            branch: match self.branch {
                Some(b) => Some(b@),
                None => None,
            },
            ahead: self.ahead,
            behind: self.behind,
            dirty: self.dirty,
        }
    }
}

fn count_from(s: &[char]) -> (n: u32)
    ensures
        n == count_or_zero(s@),
{
    let t = trim_chars(s);
    match parse_u32_chars(t.as_slice()) {
        Some(n) => n,
        None => 0,
    }
}

fn apply_part_exec(st: &mut Gathered, part: &Vec<char>)
    ensures
        final(st)@ == apply_part(old(st)@, part@),
{
    proof {
        reveal_strlit("ahead ");
        reveal_strlit("behind ");
    }
    let p = trim_chars(part.as_slice());
    if has_prefix(p.as_slice(), "ahead ") {
        let tail = skip_chars(&p, 6);
        st.ahead = count_from(tail.as_slice());
    } else if has_prefix(p.as_slice(), "behind ") {
        let tail = skip_chars(&p, 7);
        st.behind = count_from(tail.as_slice());
    }
}

/// The characters of `cs` from index `k` on.
fn skip_chars(cs: &Vec<char>, k: usize) -> (r: Vec<char>)
    requires
        k <= cs@.len(),
    ensures
        r@ == cs@.skip(k as int),
{
    let mut r: Vec<char> = Vec::new();
    let mut i = k;
    while i < cs.len()
        invariant
            k <= i <= cs@.len(),
            r@ == cs@.subrange(k as int, i as int),
        decreases cs@.len() - i,
    {
        r.push(cs[i]);
        i = i + 1;
        assert(r@ =~= cs@.subrange(k as int, i as int));
    }
    assert(r@ =~= cs@.skip(k as int));
    r
}

/// The characters of `cs` before index `k`.
fn take_chars(cs: &Vec<char>, k: usize) -> (r: Vec<char>)
    requires
        k <= cs@.len(),
    ensures
        r@ == cs@.take(k as int),
{
    let mut r: Vec<char> = Vec::new();
    let mut i: usize = 0;
    while i < k
        invariant
            i <= k <= cs@.len(),
            r@ == cs@.take(i as int),
        decreases k - i,
    {
        r.push(cs[i]);
        i = i + 1;
        assert(r@ =~= cs@.take(i as int));
    }
    r
}

fn bracket_parts_exec(up: &Vec<char>) -> (r: Vec<Vec<char>>)
    ensures
        r@.map_values(|v: Vec<char>| v@) == bracket_parts(up@),
{
    let n = up.len();
    match find_char(up.as_slice(), '[') {
        None => {
            let r: Vec<Vec<char>> = Vec::new();
            assert(r@.map_values(|v: Vec<char>| v@) =~= Seq::<Seq<char>>::empty());
            r
        },
        Some(start) => {
            proof {
                crate::text::lemma_index_of(up@, '[');
            }
            let after = skip_chars(up, start + 1);
            let inner = match find_char(after.as_slice(), ']') {
                Some(end) => {
                    proof {
                        crate::text::lemma_index_of(after@, ']');
                    }
                    take_chars(&after, end)
                },
                None => after,
            };
            split_chars(inner.as_slice(), ',')
        },
    }
}

fn apply_header_exec(st: &mut Gathered, rest: &Vec<char>)
    ensures
        final(st)@ == apply_header(old(st)@, rest@),
{
    proof {
        reveal_strlit("...");
    }
    let n = rest.len();
    match find_str(rest.as_slice(), "...") {
        None => {
            st.branch = Some(rest.clone());
        },
        Some(i) => {
            proof {
                lemma_find_seq_bound(rest@, "..."@);
            }
            st.branch = Some(take_chars(rest, i));
            let up = skip_chars(rest, i + 3);
            let parts = bracket_parts_exec(&up);
            let ghost pv = parts@.map_values(|v: Vec<char>| v@);
            let ghost st0 = st@;
            let mut j: usize = 0;
            assert(pv.take(0) =~= Seq::<Seq<char>>::empty());
            while j < parts.len()
                invariant
                    pv == parts@.map_values(|v: Vec<char>| v@),
                    j <= parts@.len(),
                    st@ == apply_parts(st0, pv.take(j as int)),
                decreases parts@.len() - j,
            {
                apply_part_exec(st, &parts[j]);
                assert(pv.take(j + 1).drop_last() =~= pv.take(j as int));
                j = j + 1;
            }
            assert(pv.take(parts@.len() as int) =~= pv);
        },
    }
}

/// A found pattern lies within the text.
proof fn lemma_find_seq_bound(s: Seq<char>, p: Seq<char>)
    ensures
        match find_seq(s, p) {
            Some(k) => 0 <= k && k + p.len() <= s.len(),
            None => true,
        },
    decreases s.len(),
{
    if s.len() >= p.len() && s.take(p.len() as int) != p && s.len() > 0 {
        lemma_find_seq_bound(s.drop_first(), p);
    }
}

/// The state described by porcelain status output.
fn porcelain(stdout: &str) -> (r: Gathered)
    ensures
        r@ == porcelain_state(stdout@),
{
    let cs = chars_of(stdout);
    let lines = lines_of(cs.as_slice());
    let ghost lv = lines@.map_values(|v: Vec<char>| v@);
    let mut st = Gathered { branch: None, ahead: 0, behind: 0, dirty: false };
    let ghost st0 = st@;
    let mut i: usize = 0;
    assert(lv.take(0) =~= Seq::<Seq<char>>::empty());
    while i < lines.len()
        invariant
            lv == lines@.map_values(|v: Vec<char>| v@),
            lv == split_lines(stdout@),
            st0 == (PorcelainState { branch: None, ahead: 0, behind: 0, dirty: false }),
            i <= lines@.len(),
            st@ == apply_lines(st0, lv.take(i as int)),
        decreases lines@.len() - i,
    {
        let line = &lines[i];
        assert(lv[i as int] == line@);
        if has_prefix(line.as_slice(), "## ") {
            proof {
                reveal_strlit("## ");
            }
            let rest = skip_chars(line, 3);
            apply_header_exec(&mut st, &rest);
        } else {
            let t = trim_chars(line.as_slice());
            if t.len() > 0 {
                st.dirty = true;
            }
        }
        assert(lv.take(i + 1).drop_last() =~= lv.take(i as int));
        i = i + 1;
    }
    assert(lv.take(lines@.len() as int) =~= lv);
    st
}

/// The commit reported by `git rev-parse --short HEAD`: its trimmed output
/// when it ran and succeeded.
pub open spec fn commit_of(rev_parse: Result<GitOutput, String>) -> Option<Seq<char>> {
    match rev_parse {
        Ok(o) => if o.code == 0 {
            Some(trim(o.stdout@))
        } else {
            None
        },
        Err(_) => None,
    }
}

/// The arguments of the status command.
pub open spec fn status_args() -> Seq<Seq<char>> {
    seq!["status"@, "--porcelain=v1"@, "--branch"@]
}

/// The text of an optional string.
pub open spec fn opt_text(s: Option<String>) -> Option<Seq<char>> {
    match s {
        Some(t) => Some(t@),
        None => None,
    }
}

/// Local git state (no network): branch, ahead/behind counts against the
/// tracking branch, whether the work tree has changes, and the short commit,
/// from the results of `git rev-parse --short HEAD` and of
/// `git status --porcelain=v1 --branch`.
pub fn status(rev_parse: Result<GitOutput, String>, porcelain_out: Result<GitOutput, String>) -> (r:
    Result<GitStatus, String>)
    ensures
        match porcelain_out {
            Err(e) => r == Err::<GitStatus, String>(e),
            Ok(o) => match git_failure(o, status_args()) {
                Some(m) => r matches Err(e) && e@ == m,
                None => r matches Ok(s) && {
                    let p = porcelain_state(o.stdout@);
                    &&& opt_text(s.commit) == commit_of(rev_parse)
                    &&& opt_text(s.branch) == p.branch
                    &&& s.ahead == p.ahead
                    &&& s.behind == p.behind
                    &&& s.dirty == p.dirty
                },
            },
        },
{
    let commit = match rev_parse {
        Ok(o) => if o.code == 0 {
            Some(trim_str(o.stdout.as_str()))
        } else {
            None
        },
        Err(_) => None,
    };
    let o = match porcelain_out {
        Ok(o) => o,
        Err(e) => {
            return Err(e);
        },
    };
    let args: [&str; 3] = ["status", "--porcelain=v1", "--branch"];
    assert(args@.map_values(|a: &str| a@) =~= status_args());
    let out = match git_or(o, args.as_slice()) {
        Ok(out) => out,
        Err(e) => {
            return Err(e);
        },
    };
    let g = porcelain(out.stdout.as_str());
    let branch = match g.branch {
        Some(b) => Some(string_of_chars(b.as_slice())),
        None => None,
    };
    Ok(GitStatus { commit, branch, ahead: g.ahead, behind: g.behind, dirty: g.dirty })
}

proof fn lemma_digit_char(d: nat)
    requires
        d < 10,
    ensures
        '0' <= digit_char(d) <= '9',
        (digit_char(d) as u32) - ('0' as u32) == d,
{
}

/// The decimal text of `n` is a non-empty run of ASCII digits that denotes
/// `n`.
pub proof fn lemma_decimal_digits(n: nat)
    ensures
        decimal(n).len() > 0,
        all_digits(decimal(n)),
        digits_value(decimal(n)) == n,
    decreases n,
{
    if n < 10 {
        lemma_digit_char(n);
        let s = decimal(n);
        assert(s.drop_last() =~= Seq::<char>::empty());
        assert(digits_value(s.drop_last()) == 0);
        assert(digits_value(s) == digits_value(s.drop_last()) * 10 + ((s.last() as u32) - ('0' as u32)) as nat);
    } else {
        lemma_decimal_digits(n / 10);
        lemma_digit_char(n % 10);
        let s = decimal(n / 10);
        let c = digit_char(n % 10);
        assert(decimal(n) == s.push(c));
        assert(s.push(c).drop_last() =~= s);
        assert(digits_value(s.push(c)) == digits_value(s) * 10 + ((c as u32) - ('0' as u32)) as nat);
        assert((n / 10) * 10 + n % 10 == n);
        assert forall|i: int| 0 <= i < s.push(c).len() implies '0' <= #[trigger] s.push(c)[i] <= '9' by {
            if i < s.len() {
                assert(s.push(c)[i] == s[i]);
            }
        }
    }
}

/// Text that starts and ends with a character other than whitespace is its
/// own trim.
proof fn lemma_trim_unchanged(s: Seq<char>)
    requires
        s.len() > 0,
        !crate::text::is_unicode_whitespace(s[0]),
        !crate::text::is_unicode_whitespace(s.last()),
    ensures
        trim(s) == s,
{
}

/// The count after `ahead ` or `behind ` reads back any `u32` written in
/// decimal: the annotation `[ahead N]` gives exactly the number `N` denotes.
pub proof fn lemma_count_reads_decimal(n: u32)
    ensures
        count_or_zero(decimal(n as nat)) == n,
{
    let s = decimal(n as nat);
    lemma_decimal_digits(n as nat);
    assert('0' <= s[0] <= '9');
    assert('0' <= s[s.len() - 1] <= '9');
    lemma_trim_unchanged(s);
}

/// Whether `c` does not occur in `s`.
pub open spec fn free_of(s: Seq<char>, c: char) -> bool {
    forall|i: int| 0 <= i < s.len() ==> s[i] != c
}

proof fn lemma_free_concat(a: Seq<char>, b: Seq<char>, c: char)
    requires
        free_of(a, c),
        free_of(b, c),
    ensures
        free_of(a + b, c),
{
    assert forall|i: int| 0 <= i < (a + b).len() implies (a + b)[i] != c by {
        if i < a.len() {
            assert((a + b)[i] == a[i]);
        } else {
            assert((a + b)[i] == b[i - a.len()]);
        }
    }
}

proof fn lemma_digits_free(d: Seq<char>, c: char)
    requires
        all_digits(d),
        !('0' <= c <= '9'),
    ensures
        free_of(d, c),
{
    assert forall|i: int| 0 <= i < d.len() implies d[i] != c by {
        assert('0' <= d[i] <= '9');
    }
}

/// Searching text that begins with a part free of `c` finds `c` where it
/// first occurs in the rest.
proof fn lemma_index_of_after(a: Seq<char>, b: Seq<char>, c: char)
    requires
        free_of(a, c),
    ensures
        index_of(a + b, c) == (match index_of(b, c) {
            Some(k) => Some(k + a.len()),
            None => None::<int>,
        }),
{
    crate::text::lemma_index_of(b, c);
    let s = a + b;
    match index_of(b, c) {
        Some(k) => {
            assert forall|j: int| 0 <= j < k + a.len() implies s[j] != c by {
                if j < a.len() {
                    assert(s[j] == a[j]);
                } else {
                    assert(s[j] == b[j - a.len()]);
                }
            }
            assert(s[k + a.len()] == b[k]);
            crate::text::lemma_index_of_at(s, c, k + a.len());
        },
        None => {
            assert forall|j: int| 0 <= j < s.len() implies s[j] != c by {
                if j < a.len() {
                    assert(s[j] == a[j]);
                } else {
                    assert(s[j] == b[j - a.len()]);
                }
            }
            crate::text::lemma_index_of_at(s, c, s.len() as int);
        },
    }
}

/// The parts `ahead N` and ` behind M` of the upstream annotation set the
/// counts to the numbers written, and change nothing else.
pub proof fn lemma_parts_read_counts(st: PorcelainState, a: u32, b: u32)
    ensures
        apply_part(st, "ahead "@ + decimal(a as nat)) == (PorcelainState { ahead: a, ..st }),
        apply_part(st, " behind "@ + decimal(b as nat)) == (PorcelainState { behind: b, ..st }),
{
    reveal_strlit("ahead ");
    reveal_strlit(" behind ");
    reveal_strlit("behind ");
    let da = decimal(a as nat);
    let db = decimal(b as nat);
    lemma_decimal_digits(a as nat);
    lemma_decimal_digits(b as nat);
    lemma_count_reads_decimal(a);
    lemma_count_reads_decimal(b);
    let p = "ahead "@ + da;
    assert('0' <= da[da.len() - 1] <= '9');
    assert(p[p.len() - 1] == da[da.len() - 1]);
    assert(p.last() == p[p.len() - 1]);
    lemma_trim_unchanged(p);
    assert(p.take(6) =~= "ahead "@);
    assert(p.skip(6) =~= da);
    let q = " behind "@ + db;
    let q1 = "behind "@ + db;
    assert(q.drop_first() =~= q1);
    assert('0' <= db[db.len() - 1] <= '9');
    assert(q1[q1.len() - 1] == db[db.len() - 1]);
    assert(q1.last() == q1[q1.len() - 1]);
    lemma_trim_unchanged(q1);
    assert(crate::text::trim_start(q) == crate::text::trim_start(q1));
    assert(trim(q) == q1);
    assert(q1.take(6) != "ahead "@) by {
        assert(q1.take(6)[0] == 'b');
    }
    assert(q1.take(7) =~= "behind "@);
    assert(q1.skip(7) =~= db);
}

/// Output made of one line without a line break, ending in `\n`, is that
/// one line.
proof fn lemma_one_line(line: Seq<char>)
    requires
        line.len() > 0,
        free_of(line, '\n'),
        line.last() != '\r',
    ensures
        porcelain_state(line + "\n"@) == apply_line(
            PorcelainState { branch: None, ahead: 0, behind: 0, dirty: false },
            line,
        ),
{
    reveal_strlit("\n");
    let out = line + "\n"@;
    assert(index_of("\n"@, '\n') == Some(0int));
    lemma_index_of_after(line, "\n"@, '\n');
    assert(out.take(line.len() as int) =~= line);
    assert(out.skip(line.len() as int + 1) =~= Seq::<char>::empty());
    assert(crate::text::strip_cr(line) == line);
    assert(split_lines(Seq::<char>::empty()) == Seq::<Seq<char>>::empty());
    assert(split_lines(out) == seq![crate::text::strip_cr(out.take(line.len() as int))] + split_lines(
        out.skip(line.len() as int + 1),
    ));
    assert(split_lines(out) =~= seq![line]);
    assert(seq![line].drop_last() =~= Seq::<Seq<char>>::empty());
    let st0 = PorcelainState { branch: None, ahead: 0, behind: 0, dirty: false };
    assert(apply_lines(st0, seq![line]) == apply_line(apply_lines(st0, Seq::<Seq<char>>::empty()), line));
}

/// The text inside the brackets of the annotation.
proof fn lemma_bracket_inner(a: u32, b: u32)
    ensures
        bracket_parts("origin/main [ahead "@ + decimal(a as nat) + ", behind "@ + decimal(b as nat) + "]"@)
            == split_on("ahead "@ + decimal(a as nat) + ", behind "@ + decimal(b as nat), ','),
{
    reveal_strlit("origin/main [ahead ");
    reveal_strlit("origin/main ");
    reveal_strlit(", behind ");
    reveal_strlit("]");
    reveal_strlit("ahead ");
    let da = decimal(a as nat);
    let db = decimal(b as nat);
    lemma_decimal_digits(a as nat);
    lemma_decimal_digits(b as nat);
    let l2 = ", behind "@;
    let l3 = "]"@;
    let up = "origin/main [ahead "@ + da + l2 + db + l3;
    let u2 = "ahead "@ + da + l2 + db + l3;
    let u0 = "origin/main "@;
    assert(free_of(u0, '['));
    assert(up =~= u0 + (seq!['['] + u2));
    assert(index_of(seq!['['] + u2, '[') == Some(0int));
    lemma_index_of_after(u0, seq!['['] + u2, '[');
    assert(up.skip(13) =~= u2);
    let inner = "ahead "@ + da + l2 + db;
    assert(free_of("ahead "@, ']'));
    assert(free_of(l2, ']'));
    lemma_digits_free(da, ']');
    lemma_digits_free(db, ']');
    lemma_free_concat("ahead "@, da, ']');
    lemma_free_concat("ahead "@ + da, l2, ']');
    lemma_free_concat("ahead "@ + da + l2, db, ']');
    assert(index_of(l3, ']') == Some(0int));
    lemma_index_of_after(inner, l3, ']');
    assert(u2 =~= inner + l3);
    assert(u2.take(inner.len() as int) =~= inner);
}

/// The inside of the annotation splits at its comma into its two parts.
proof fn lemma_split_parts(a: u32, b: u32)
    ensures
        split_on("ahead "@ + decimal(a as nat) + ", behind "@ + decimal(b as nat), ',') == seq![
            "ahead "@ + decimal(a as nat),
            " behind "@ + decimal(b as nat),
        ],
{
    reveal_strlit(", behind ");
    reveal_strlit("ahead ");
    reveal_strlit(" behind ");
    let da = decimal(a as nat);
    let db = decimal(b as nat);
    lemma_decimal_digits(a as nat);
    lemma_decimal_digits(b as nat);
    let inner = "ahead "@ + da + ", behind "@ + db;
    let p0 = "ahead "@ + da;
    let p1 = " behind "@ + db;
    assert(free_of("ahead "@, ','));
    lemma_digits_free(da, ',');
    lemma_digits_free(db, ',');
    lemma_free_concat("ahead "@, da, ',');
    assert(free_of(" behind "@, ','));
    lemma_free_concat(" behind "@, db, ',');
    assert(inner =~= p0 + (seq![','] + p1));
    assert(index_of(seq![','] + p1, ',') == Some(0int));
    lemma_index_of_after(p0, seq![','] + p1, ',');
    assert(inner.take(p0.len() as int) =~= p0);
    assert(inner.skip(p0.len() as int + 1) =~= p1);
    crate::text::lemma_index_of(p1, ',');
    assert(index_of(p1, ',') is None);
    assert(split_on(p1, ',') =~= seq![p1]);
    assert(split_on(inner, ',') =~= seq![p0, p1]);
}

/// The bracketed annotation `[ahead A, behind B]` sets both counts.
proof fn lemma_annotation(st: PorcelainState, a: u32, b: u32)
    ensures
        apply_parts(st, bracket_parts("origin/main [ahead "@ + decimal(a as nat) + ", behind "@ + decimal(b as nat) + "]"@))
            == (PorcelainState { ahead: a, behind: b, ..st }),
{
    lemma_bracket_inner(a, b);
    lemma_split_parts(a, b);
    let p0 = "ahead "@ + decimal(a as nat);
    let p1 = " behind "@ + decimal(b as nat);
    let parts = seq![p0, p1];
    assert(parts.drop_last() =~= seq![p0]);
    assert(seq![p0].drop_last() =~= Seq::<Seq<char>>::empty());
    assert(apply_parts(st, seq![p0]) == apply_part(apply_parts(st, Seq::<Seq<char>>::empty()), p0));
    lemma_parts_read_counts(st, a, b);
    lemma_parts_read_counts(PorcelainState { ahead: a, ..st }, a, b);
}

/// The status line that git prints for a branch ahead of and behind its
/// upstream reads back the branch and both counts, whatever they are: the
/// output `## main...origin/main [ahead A, behind B]` gives branch `main`,
/// ahead `A` and behind `B`, and no change in the work tree.
pub proof fn lemma_status_line_counts(a: u32, b: u32)
    ensures
        ({
            let line = "## main...origin/main [ahead "@ + decimal(a as nat) + ", behind "@ + decimal(b as nat) + "]"@;
            let st = porcelain_state(line + "\n"@);
            &&& st.branch == Some("main"@)
            &&& st.ahead == a
            &&& st.behind == b
            &&& !st.dirty
        }),
{
    reveal_strlit("## main...origin/main [ahead ");
    reveal_strlit("main...origin/main [ahead ");
    reveal_strlit("origin/main [ahead ");
    reveal_strlit(", behind ");
    reveal_strlit("]");
    reveal_strlit("## ");
    reveal_strlit("...");
    reveal_strlit("main");
    let da = decimal(a as nat);
    let db = decimal(b as nat);
    lemma_decimal_digits(a as nat);
    lemma_decimal_digits(b as nat);
    let l1 = "## main...origin/main [ahead "@;
    let l2 = ", behind "@;
    let l3 = "]"@;
    let tail = da + l2 + db + l3;
    let line = l1 + da + l2 + db + l3;
    assert(line =~= l1 + tail);
    lemma_digits_free(da, '\n');
    lemma_digits_free(db, '\n');
    assert(free_of(l1, '\n'));
    assert(free_of(l2, '\n'));
    assert(free_of(l3, '\n'));
    lemma_free_concat(l1, da, '\n');
    lemma_free_concat(l1 + da, l2, '\n');
    lemma_free_concat(l1 + da + l2, db, '\n');
    lemma_free_concat(l1 + da + l2 + db, l3, '\n');
    assert(line.last() == ']');
    lemma_one_line(line);
    let st0 = PorcelainState { branch: None, ahead: 0, behind: 0, dirty: false };
    assert(line.take(3) =~= "## "@);
    let rest = line.skip(3);
    assert(rest =~= "main...origin/main [ahead "@ + tail);
    assert(rest.subrange(4, 7) =~= "..."@);
    assert forall|j: int| 0 <= j < 4 implies #[trigger] rest.subrange(j, j + 3) != "..."@ by {
        assert(rest.subrange(j, j + 3)[0] == rest[j]);
        assert(rest[j] == l1[j + 3]);
    }
    crate::text::lemma_find_seq_at(rest, "..."@, 4);
    assert(rest.take(4) =~= "main"@);
    assert(rest.skip(7) =~= "origin/main [ahead "@ + da + l2 + db + l3);
    lemma_annotation(PorcelainState { branch: Some("main"@), ..st0 }, a, b);
}

} // verus!
