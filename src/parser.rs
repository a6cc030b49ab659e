//! The test-file grammar.
//!
//! ```text
//! file        := WS? (test_block WS?)*
//! test_block  := "@test " test_name " {" LINE_END body "}" LINE_END
//! test_name   := (alnum | "_")+
//! body        := line+
//! line        := <text without '\r' or '\n', not starting with '}'> LINE_END
//! LINE_END    := "\n" | "\r\n"
//! ```
//!
//! Text is read as a sequence of characters; positions are character offsets.
use vstd::prelude::*;
use vstd::string::*;

verus! {

/// A parsed test: its name and its raw body, line endings included.
#[derive(Debug, Clone)]
pub struct Test {
    pub name: String,
    pub body: String,
}

/// Why a test file could not be turned into tests.
#[derive(Debug)]
pub enum Error {
    /// The text at character offset `offset` does not start a well-formed test block.
    Parse { path: String, offset: usize },
    /// The file could not be read; the message describes the cause.
    Io { path: String, message: String },
}

/// A character that may appear in a test name.
pub open spec fn is_name_char(c: char) -> bool {
    ('a' <= c && c <= 'z') || ('A' <= c && c <= 'Z') || ('0' <= c && c <= '9') || c == '_'
}

/// Whitespace skipped between blocks.
pub open spec fn is_space_char(c: char) -> bool {
    c == ' ' || c == '\t' || c == '\r' || c == '\n'
}

pub open spec fn is_break_char(c: char) -> bool {
    c == '\r' || c == '\n'
}

/// The position just past the line ending that starts at `k`, if one does.
pub open spec fn line_ending_at(s: Seq<char>, k: int) -> Option<int> {
    if 0 <= k < s.len() && s[k] == '\n' {
        Some(k + 1)
    } else if 0 <= k && k + 1 < s.len() && s[k] == '\r' && s[k + 1] == '\n' {
        Some(k + 2)
    } else {
        None
    }
}

/// The first position at or after `i` that holds a line break, or the end of the text.
pub open spec fn content_end(s: Seq<char>, i: int) -> int
    decreases s.len() - i,
{
    if i < 0 || i >= s.len() || is_break_char(s[i]) {
        i
    } else {
        content_end(s, i + 1)
    }
}

/// The first position at or after `i` that holds no name character.
pub open spec fn name_end(s: Seq<char>, i: int) -> int
    decreases s.len() - i,
{
    if i < 0 || i >= s.len() || !is_name_char(s[i]) {
        i
    } else {
        name_end(s, i + 1)
    }
}

/// The first position at or after `i` that holds no whitespace.
pub open spec fn skip_space(s: Seq<char>, i: int) -> int
    decreases s.len() - i,
{
    if i < 0 || i >= s.len() || !is_space_char(s[i]) {
        i
    } else {
        skip_space(s, i + 1)
    }
}

/// The end of the body line that starts at `i` (line ending included), if a body
/// line starts there.
pub open spec fn body_line_at(s: Seq<char>, i: int) -> Option<int> {
    if 0 <= i < s.len() && s[i] == '}' {
        None
    } else {
        line_ending_at(s, content_end(s, i))
    }
}

/// The end of the longest run of body lines starting at `i`.
pub open spec fn body_end(s: Seq<char>, i: int) -> int
    decreases s.len() - i,
{
    match body_line_at(s, i) {
        Some(j) => if i < j <= s.len() {
            body_end(s, j)
        } else {
            i
        },
        None => i,
    }
}

/// Whether `lit` stands in `s` at position `i`.
pub open spec fn has_at(s: Seq<char>, i: int, lit: Seq<char>) -> bool {
    0 <= i && i + lit.len() <= s.len() && s.subrange(i, i + lit.len()) == lit
}

/// The positions of a test block: name start and end, body start and end, and
/// the end of the block.
pub type Span = (int, int, int, int, int);

/// The test block that starts at `i`, if one does.
pub open spec fn block_at(s: Seq<char>, i: int) -> Option<Span> {
    let ns = i + 6;
    let ne = name_end(s, ns);
    if !has_at(s, i, seq!['@', 't', 'e', 's', 't', ' ']) || ne == ns
        || !has_at(s, ne, seq![' ', '{']) {
        None
    } else {
        match line_ending_at(s, ne + 2) {
            None => None,
            Some(bs) => {
                let be = body_end(s, bs);
                if be == bs || !(be < s.len() && s[be] == '}') {
                    None
                } else {
                    match line_ending_at(s, be + 1) {
                        None => None,
                        Some(end) => Some((ns, ne, bs, be, end)),
                    }
                }
            },
        }
    }
}

/// The blocks of the text from position `i` on, where `i` follows whitespace, or
/// the position of the first block that is not well formed.
pub open spec fn blocks_from(s: Seq<char>, i: int) -> Result<Seq<Span>, int>
    decreases s.len() - i via blocks_from_decreases
{
    if i < 0 || i >= s.len() {
        Ok(Seq::empty())
    } else {
        match block_at(s, i) {
            None => Err(i),
            Some(b) => if i < b.4 <= s.len() {
                match blocks_from(s, skip_space(s, b.4)) {
                    Ok(rest) => Ok(seq![b] + rest),
                    Err(p) => Err(p),
                }
            } else {
                Err(i)
            },
        }
    }
}

#[via_fn]
proof fn blocks_from_decreases(s: Seq<char>, i: int) {
    if 0 <= i < s.len() {
        if let Some(b) = block_at(s, i) {
            if i < b.4 <= s.len() {
                lemma_skip_space_bounds(s, b.4);
            }
        }
    }
}

/// The blocks of a whole test file.
pub open spec fn file_blocks(s: Seq<char>) -> Result<Seq<Span>, int> {
    blocks_from(s, skip_space(s, 0))
}

/// The test that a span of `s` denotes.
pub open spec fn test_matches(t: Test, s: Seq<char>, b: Span) -> bool {
    t.name@ == s.subrange(b.0, b.1) && t.body@ == s.subrange(b.2, b.3)
}

/// The tests that the spans of `s` denote, in order.
pub open spec fn tests_match(ts: Seq<Test>, s: Seq<char>, bs: Seq<Span>) -> bool {
    ts.len() == bs.len() && forall|k: int| 0 <= k < ts.len() ==> #[trigger] test_matches(ts[k], s, bs[k])
}

/// Relies on str::chars: the characters of a string, in order.
#[verifier::external_body]
fn chars_of(s: &str) -> (r: Vec<char>)
    ensures
        r@ == s@,
{
    s.chars().collect()
}

proof fn lemma_content_end_bounds(s: Seq<char>, i: int)
    requires
        0 <= i <= s.len(),
    ensures
        i <= content_end(s, i) <= s.len(),
    decreases s.len() - i,
{
    if i < s.len() && !is_break_char(s[i]) {
        lemma_content_end_bounds(s, i + 1);
    }
}

proof fn lemma_name_end_bounds(s: Seq<char>, i: int)
    requires
        0 <= i <= s.len(),
    ensures
        i <= name_end(s, i) <= s.len(),
    decreases s.len() - i,
{
    if i < s.len() && is_name_char(s[i]) {
        lemma_name_end_bounds(s, i + 1);
    }
}

proof fn lemma_skip_space_bounds(s: Seq<char>, i: int)
    requires
        0 <= i <= s.len(),
    ensures
        i <= skip_space(s, i) <= s.len(),
    decreases s.len() - i,
{
    if i < s.len() && is_space_char(s[i]) {
        lemma_skip_space_bounds(s, i + 1);
    }
}

proof fn lemma_body_end_bounds(s: Seq<char>, i: int)
    requires
        0 <= i <= s.len(),
    ensures
        i <= body_end(s, i) <= s.len(),
    decreases s.len() - i,
{
    match body_line_at(s, i) {
        Some(j) => if i < j <= s.len() {
            lemma_body_end_bounds(s, j);
        },
        None => {},
    }
}

/// Whether some line of `body` starts with `}`.
pub open spec fn has_brace_line(body: Seq<char>) -> bool {
    exists|j: int| 0 <= j < body.len() && #[trigger] body[j] == '}' && (j == 0 || body[j - 1] == '\n')
}

proof fn lemma_content_plain(s: Seq<char>, i: int, q: int)
    requires
        0 <= i <= q < content_end(s, i),
    ensures
        !is_break_char(s[q]),
    decreases s.len() - i,
{
    if i < q {
        lemma_content_plain(s, i + 1, q);
    }
}

proof fn lemma_body_line_starts(s: Seq<char>, i: int, p: int)
    requires
        0 <= i <= p < body_end(s, i),
        p == i || s[p - 1] == '\n',
    ensures
        s[p] != '}',
    decreases s.len() - i,
{
    let j = body_line_at(s, i)->Some_0;
    if 0 <= i < s.len() {
        lemma_content_end_bounds(s, i);
    }
    if p == i {
    } else if p < j {
        if p - 1 < content_end(s, i) {
            lemma_content_plain(s, i, p - 1);
        }
    } else {
        lemma_body_line_starts(s, j, p);
    }
}

proof fn lemma_spans_are_blocks(s: Seq<char>, i: int)
    requires
        blocks_from(s, i) is Ok,
    ensures
        forall|k: int|
            0 <= k < blocks_from(s, i)->Ok_0.len() ==> exists|p: int|
                block_at(s, p) == Some(#[trigger] blocks_from(s, i)->Ok_0[k]),
    decreases s.len() - i,
{
    if 0 <= i < s.len() {
        let b = block_at(s, i)->Some_0;
        let next = skip_space(s, b.4);
        lemma_skip_space_bounds(s, b.4);
        lemma_spans_are_blocks(s, next);
        let rest = blocks_from(s, next)->Ok_0;
        assert forall|k: int| 0 <= k < blocks_from(s, i)->Ok_0.len() implies exists|p: int|
            block_at(s, p) == Some(#[trigger] blocks_from(s, i)->Ok_0[k]) by {
            if k == 0 {
                assert(block_at(s, i) == Some(blocks_from(s, i)->Ok_0[k]));
            } else {
                assert(blocks_from(s, i)->Ok_0[k] == rest[k - 1]);
            }
        }
    }
}

/// No line of a parsed test's body starts with `}`: such a line ends the body, so a
/// file that has one inside a block does not parse as that block.
pub proof fn lemma_no_body_line_starts_with_brace(s: Seq<char>, k: int)
    requires
        file_blocks(s) is Ok,
        0 <= k < file_blocks(s)->Ok_0.len(),
    ensures
        !has_brace_line(s.subrange(file_blocks(s)->Ok_0[k].2, file_blocks(s)->Ok_0[k].3)),
{
    lemma_spans_are_blocks(s, skip_space(s, 0));
    let b = file_blocks(s)->Ok_0[k];
    let p = choose|p: int| block_at(s, p) == Some(b);
    let body = s.subrange(b.2, b.3);
    assert(b.3 == body_end(s, b.2));
    if has_brace_line(body) {
        let j = choose|j: int|
            0 <= j < body.len() && #[trigger] body[j] == '}' && (j == 0 || body[j - 1] == '\n');
        lemma_body_end_bounds(s, b.2);
        lemma_body_line_starts(s, b.2, b.2 + j);
    }
}

fn line_ending_exec(s: &Vec<char>, k: usize) -> (r: Option<usize>)
    requires
        k <= s.len(),
    ensures
        r matches Some(e) ==> line_ending_at(s@, k as int) == Some(e as int),
        r is None ==> line_ending_at(s@, k as int) is None,
{
    if k < s.len() && s[k] == '\n' {
        Some(k + 1)
    } else if k < s.len() && s.len() - k >= 2 && s[k] == '\r' && s[k + 1] == '\n' {
        Some(k + 2)
    } else {
        None
    }
}

fn content_end_exec(s: &Vec<char>, i: usize) -> (r: usize)
    requires
        i <= s.len(),
    ensures
        r as int == content_end(s@, i as int),
{
    let mut k: usize = i;
    while k < s.len() && s[k] != '\r' && s[k] != '\n'
        invariant
            i <= k <= s.len(),
            content_end(s@, i as int) == content_end(s@, k as int),
        decreases s.len() - k,
    {
        k = k + 1;
    }
    k
}

fn name_end_exec(s: &Vec<char>, i: usize) -> (r: usize)
    requires
        i <= s.len(),
    ensures
        r as int == name_end(s@, i as int),
{
    let mut k: usize = i;
    while k < s.len() && ((s[k] >= 'a' && s[k] <= 'z') || (s[k] >= 'A' && s[k] <= 'Z') || (
    s[k] >= '0' && s[k] <= '9') || s[k] == '_')
        invariant
            i <= k <= s.len(),
            name_end(s@, i as int) == name_end(s@, k as int),
        decreases s.len() - k,
    {
        k = k + 1;
    }
    k
}

fn skip_space_exec(s: &Vec<char>, i: usize) -> (r: usize)
    requires
        i <= s.len(),
    ensures
        r as int == skip_space(s@, i as int),
{
    let mut k: usize = i;
    while k < s.len() && (s[k] == ' ' || s[k] == '\t' || s[k] == '\r' || s[k] == '\n')
        invariant
            i <= k <= s.len(),
            skip_space(s@, i as int) == skip_space(s@, k as int),
        decreases s.len() - k,
    {
        k = k + 1;
    }
    k
}

fn body_line_exec(s: &Vec<char>, i: usize) -> (r: Option<usize>)
    requires
        i <= s.len(),
    ensures
        r matches Some(e) ==> body_line_at(s@, i as int) == Some(e as int) && i < e <= s.len(),
        r is None ==> body_line_at(s@, i as int) is None,
{
    if i < s.len() && s[i] == '}' {
        return None;
    }
    let k = content_end_exec(s, i);
    proof {
        lemma_content_end_bounds(s@, i as int);
    }
    if k == s.len() {
        return None;
    }
    let r = line_ending_exec(s, k);
    match r {
        Some(e) => {
            assert(i < e);
            Some(e)
        },
        None => None,
    }
}

fn body_end_exec(s: &Vec<char>, i: usize) -> (r: usize)
    requires
        i <= s.len(),
    ensures
        r as int == body_end(s@, i as int),
{
    let mut k: usize = i;
    loop
        invariant
            i <= k <= s.len(),
            body_end(s@, i as int) == body_end(s@, k as int),
        decreases s.len() - k,
    {
        match body_line_exec(s, k) {
            Some(e) => {
                k = e;
            },
            None => {
                return k;
            },
        }
    }
}

fn has_lit_exec(s: &Vec<char>, i: usize, lit: &Vec<char>) -> (r: bool)
    requires
        i <= s.len(),
    ensures
        r == has_at(s@, i as int, lit@),
{
    if lit.len() > s.len() - i {
        return false;
    }
    let mut k: usize = 0;
    while k < lit.len()
        invariant
            i + lit.len() <= s.len(),
            0 <= k <= lit.len(),
            forall|j: int| 0 <= j < k ==> s@[i + j] == lit@[j],
        decreases lit.len() - k,
    {
        if s[i + k] != lit[k] {
            assert(s@.subrange(i as int, i + lit.len())[k as int] != lit@[k as int]);
            return false;
        }
        k = k + 1;
    }
    assert(s@.subrange(i as int, i + lit.len()) =~= lit@);
    true
}

/// The test block that starts at `i`, as positions in `s`.
fn block_exec(s: &Vec<char>, i: usize) -> (r: Option<(usize, usize, usize, usize, usize)>)
    requires
        i <= s.len(),
    ensures
        r matches Some(b) ==> block_at(s@, i as int) == Some(
            (b.0 as int, b.1 as int, b.2 as int, b.3 as int, b.4 as int),
        ) && i < b.4 <= s.len() && b.0 <= b.1 <= b.2 <= b.3 <= b.4,
        r is None ==> block_at(s@, i as int) is None,
{
    let head = vec!['@', 't', 'e', 's', 't', ' '];
    assert(head@ =~= seq!['@', 't', 'e', 's', 't', ' ']);
    if !has_lit_exec(s, i, &head) {
        return None;
    }
    let ns = i + 6;
    let ne = name_end_exec(s, ns);
    proof {
        lemma_name_end_bounds(s@, ns as int);
    }
    let open = vec![' ', '{'];
    assert(open@ =~= seq![' ', '{']);
    if ne == ns || !has_lit_exec(s, ne, &open) {
        return None;
    }
    let bs = match line_ending_exec(s, ne + 2) {
        Some(bs) => bs,
        None => {
            return None;
        },
    };
    let be = body_end_exec(s, bs);
    proof {
        lemma_body_end_bounds(s@, bs as int);
    }
    if be == bs || !(be < s.len() && s[be] == '}') {
        return None;
    }
    match line_ending_exec(s, be + 1) {
        Some(end) => Some((ns, ne, bs, be, end)),
        None => None,
    }
}

/// The position spans found by the parser, as the grammar's spans, each lying in
/// a text of length `len`.
pub open spec fn spans_agree(v: Seq<(usize, usize, usize, usize, usize)>, bs: Seq<Span>, len: int) -> bool {
    forall|k: int|
        0 <= k < v.len() ==> {
            &&& #[trigger] bs[k] == (v[k].0 as int, v[k].1 as int, v[k].2 as int, v[k].3 as int, v[k].4 as int)
            &&& v[k].0 <= v[k].1 <= v[k].2 <= v[k].3 <= len
        }
}

/// Finds the blocks of a test file, or the position of the first malformed one.
fn file_spans(s: &Vec<char>) -> (r: Result<Vec<(usize, usize, usize, usize, usize)>, usize>)
    ensures
        match file_blocks(s@) {
            Ok(bs) => r matches Ok(v) && v@.len() == bs.len() && spans_agree(v@, bs, s@.len() as int),
            Err(p) => r matches Err(q) && q == p,
        },
{
    let mut spans: Vec<(usize, usize, usize, usize, usize)> = Vec::new();
    let mut i = skip_space_exec(s, 0);
    proof {
        lemma_skip_space_bounds(s@, 0);
    }
    while i < s.len()
        invariant
            i <= s.len(),
            file_blocks(s@) is Ok ==> blocks_from(s@, i as int) is Ok,
            file_blocks(s@) is Ok ==> {
                let bs = file_blocks(s@)->Ok_0;
                let rest = blocks_from(s@, i as int)->Ok_0;
                &&& bs.len() == spans@.len() + rest.len()
                &&& spans_agree(spans@, bs, s@.len() as int)
                &&& forall|k: int| 0 <= k < rest.len() ==> bs[spans@.len() + k] == #[trigger] rest[k]
            },
            file_blocks(s@) is Err ==> blocks_from(s@, i as int) == file_blocks(s@),
        decreases s.len() - i,
    {
        match block_exec(s, i) {
            None => {
                return Err(i);
            },
            Some(b) => {
                let next = skip_space_exec(s, b.4);
                proof {
                    lemma_skip_space_bounds(s@, b.4 as int);
                }
                let ghost old_spans = spans@;
                spans.push(b);
                proof {
                    if file_blocks(s@) is Ok {
                        let bs = file_blocks(s@)->Ok_0;
                        let rest = blocks_from(s@, i as int)->Ok_0;
                        let rest2 = blocks_from(s@, next as int)->Ok_0;
                        assert(rest == seq![block_at(s@, i as int)->Some_0] + rest2);
                        assert(bs[old_spans.len() as int] == rest[0]);
                        assert forall|k: int| 0 <= k < rest2.len() implies bs[spans@.len() + k]
                            == #[trigger] rest2[k] by {
                            assert(bs[old_spans.len() + (k + 1)] == rest[k + 1]);
                        }
                        assert forall|k: int| 0 <= k < spans@.len() implies {
                            &&& #[trigger] bs[k] == (
                                spans@[k].0 as int,
                                spans@[k].1 as int,
                                spans@[k].2 as int,
                                spans@[k].3 as int,
                                spans@[k].4 as int,
                            )
                            &&& spans@[k].0 <= spans@[k].1 <= spans@[k].2 <= spans@[k].3 <= s@.len()
                        } by {
                            if k < old_spans.len() {
                                assert(spans@[k] == old_spans[k]);
                            }
                        }
                    }
                }
                i = next;
            },
        }
    }
    Ok(spans)
}


/// Parses the text of a test file into its tests, in the order they are declared;
/// on failure, gives the character offset of the first block that is not well formed.
pub fn parse_tests(contents: &str) -> (r: Result<Vec<Test>, usize>)
    ensures
        match file_blocks(contents@) {
            Ok(bs) => r matches Ok(ts) && tests_match(ts@, contents@, bs),
            Err(p) => r matches Err(q) && q == p,
        },
{
    let s = chars_of(contents);
    match file_spans(&s) {
        Err(p) => Err(p),
        Ok(spans) => {
            assert(file_blocks(s@) is Ok);
            let ghost bs = file_blocks(contents@)->Ok_0;
            let mut tests: Vec<Test> = Vec::new();
            let mut k: usize = 0;
            while k < spans.len()
                invariant
                    s@ == contents@,
                    file_blocks(contents@) == Ok::<Seq<Span>, int>(bs),
                    spans@.len() == bs.len(),
                    spans_agree(spans@, bs, s@.len() as int),
                    0 <= k <= spans.len(),
                    tests@.len() == k,
                    forall|j: int| 0 <= j < k ==> #[trigger] test_matches(tests@[j], contents@, bs[j]),
                decreases spans.len() - k,
            {
                let b = spans[k];
                assert(bs[k as int] == (
                    spans@[k as int].0 as int,
                    spans@[k as int].1 as int,
                    spans@[k as int].2 as int,
                    spans@[k as int].3 as int,
                    spans@[k as int].4 as int,
                ));
                let name = String::from_str(contents.substring_char(b.0, b.1));
                let body = String::from_str(contents.substring_char(b.2, b.3));
                tests.push(Test { name, body });
                k = k + 1;
            }
            Ok(tests)
        },
    }
}

/// Parses the text of the test file at `path`: a parse failure names the file.
pub fn parse_test_file(path: &str, contents: &str) -> (r: Result<Vec<Test>, Error>)
    ensures
        match file_blocks(contents@) {
            Ok(bs) => r matches Ok(ts) && tests_match(ts@, contents@, bs),
            Err(p) => r matches Err(Error::Parse { path: q, offset }) && q@ == path@ && offset
                == p,
        },
{
    match parse_tests(contents) {
        Ok(ts) => Ok(ts),
        Err(offset) => Err(Error::Parse { path: String::from_str(path), offset }),
    }
}


/// The end of the shell name that starts at `i`, if one does: one of `bash`, `fish`,
/// `zsh` and `tcsh`.
pub open spec fn shell_at(s: Seq<char>, i: int) -> Option<int> {
    if has_at(s, i, "bash"@) || has_at(s, i, "fish"@) || has_at(s, i, "tcsh"@) {
        Some(i + 4)
    } else if has_at(s, i, "zsh"@) {
        Some(i + 3)
    } else {
        None
    }
}

/// The first position at or after `i` that holds neither a space nor a tab.
pub open spec fn skip_blanks(s: Seq<char>, i: int) -> int
    decreases s.len() - i,
{
    if i < 0 || i >= s.len() || !(s[i] == ' ' || s[i] == '\t') {
        i
    } else {
        skip_blanks(s, i + 1)
    }
}

/// After a shell name that ends at `i`, the further names (each after a comma and
/// optional blanks), at most `left` of them, and the position after the last.
pub open spec fn more_shells(s: Seq<char>, i: int, left: nat) -> (Seq<(int, int)>, int)
    decreases left,
{
    if left > 0 && 0 <= i < s.len() && s[i] == ',' {
        let j = skip_blanks(s, i + 1);
        match shell_at(s, j) {
            Some(e) => {
                let rest = more_shells(s, e, (left - 1) as nat);
                (seq![(j, e)] + rest.0, rest.1)
            },
            None => (Seq::empty(), i),
        }
    } else {
        (Seq::empty(), i)
    }
}

/// The spans of the shell names of the `@shells(...)` decorator at the start of `s`:
/// one to four names from the fixed set, separated by commas.
pub open spec fn decorator_shells(s: Seq<char>) -> Option<Seq<(int, int)>> {
    match shell_at(s, 8) {
        Some(e) => if has_at(s, 0, "@shells("@) && has_at(s, more_shells(s, e, 3).1, ")"@) {
            Some(seq![(8, e)] + more_shells(s, e, 3).0)
        } else {
            None
        },
        None => None,
    }
}

/// The end of the shell name at `i`.
fn shell_exec(s: &Vec<char>, i: usize) -> (r: Option<usize>)
    requires
        i <= s.len(),
    ensures
        r matches Some(e) ==> shell_at(s@, i as int) == Some(e as int) && i < e <= s.len(),
        r is None ==> shell_at(s@, i as int) is None,
{
    let bash = vec!['b', 'a', 's', 'h'];
    let fish = vec!['f', 'i', 's', 'h'];
    let tcsh = vec!['t', 'c', 's', 'h'];
    let zsh = vec!['z', 's', 'h'];
    proof {
        reveal_strlit("bash");
        reveal_strlit("fish");
        reveal_strlit("tcsh");
        reveal_strlit("zsh");
        assert(bash@ =~= "bash"@);
        assert(fish@ =~= "fish"@);
        assert(tcsh@ =~= "tcsh"@);
        assert(zsh@ =~= "zsh"@);
    }
    if has_lit_exec(s, i, &bash) || has_lit_exec(s, i, &fish) || has_lit_exec(s, i, &tcsh) {
        Some(i + 4)
    } else if has_lit_exec(s, i, &zsh) {
        Some(i + 3)
    } else {
        None
    }
}

fn skip_blanks_exec(s: &Vec<char>, i: usize) -> (r: usize)
    requires
        i <= s.len(),
    ensures
        r as int == skip_blanks(s@, i as int),
        i <= r <= s.len(),
{
    let mut k: usize = i;
    while k < s.len() && (s[k] == ' ' || s[k] == '\t')
        invariant
            i <= k <= s.len(),
            skip_blanks(s@, i as int) == skip_blanks(s@, k as int),
        decreases s.len() - k,
    {
        k = k + 1;
    }
    k
}

/// Parses the `@shells(...)` decorator at the start of `input` into the shells it
/// names, in order.
pub fn shells_decorator(input: &str) -> (r: Option<Vec<String>>)
    ensures
        match decorator_shells(input@) {
            Some(spans) => r matches Some(v) && v@.len() == spans.len() && forall|k: int|
                0 <= k < spans.len() ==> (#[trigger] v@[k])@ == input@.subrange(spans[k].0, spans[k].1),
            None => r is None,
        },
{
    let s = chars_of(input);
    let head = vec!['@', 's', 'h', 'e', 'l', 'l', 's', '('];
    proof {
        reveal_strlit("@shells(");
        reveal_strlit(")");
    }
    assert(head@ =~= "@shells("@);
    if !has_lit_exec(&s, 0, &head) {
        return None;
    }
    let first = match shell_exec(&s, 8) {
        Some(e) => e,
        None => {
            return None;
        },
    };
    let mut spans: Vec<(usize, usize)> = vec![(8, first)];
    let mut pos = first;
    let mut left: usize = 3;
    let ghost whole = more_shells(s@, first as int, 3);
    loop
        invariant
            s@ == input@,
            pos <= s@.len(),
            left <= 3,
            spans@.len() + left == 4,
            8 <= s@.len(),
            shell_at(s@, 8) == Some(first as int),
            whole == more_shells(s@, first as int, 3),
            whole.1 == more_shells(s@, pos as int, left as nat).1,
            whole.0 =~= spans@.subrange(1, spans@.len() as int).map_values(
                |p: (usize, usize)| (p.0 as int, p.1 as int),
            ) + more_shells(s@, pos as int, left as nat).0,
            spans@[0] == (8usize, first),
            forall|k: int| 0 <= k < spans@.len() ==> (#[trigger] spans@[k]).0 <= spans@[k].1 <= s@.len(),
        ensures
            pos <= s@.len(),
            whole.1 == pos as int,
            whole.0 =~= spans@.subrange(1, spans@.len() as int).map_values(
                |p: (usize, usize)| (p.0 as int, p.1 as int),
            ),
            spans@[0] == (8usize, first),
            forall|k: int| 0 <= k < spans@.len() ==> (#[trigger] spans@[k]).0 <= spans@[k].1 <= s@.len(),
        decreases left,
    {
        if left == 0 || pos >= s.len() || s[pos] != ',' {
            assert(more_shells(s@, pos as int, left as nat).0 =~= Seq::<(int, int)>::empty());
            break;
        }
        let j = skip_blanks_exec(&s, pos + 1);
        match shell_exec(&s, j) {
            Some(e) => {
                let ghost prev = spans@;
                spans.push((j, e));
                assert(spans@.subrange(1, spans@.len() as int) =~= prev.subrange(1, prev.len() as int).push((j, e)));
                pos = e;
                left = left - 1;
            },
            None => {
                assert(more_shells(s@, pos as int, left as nat).0 =~= Seq::<(int, int)>::empty());
                break;
            },
        }
    }
    let close = vec![')'];
    assert(close@ =~= ")"@);
    if !has_lit_exec(&s, pos, &close) {
        return None;
    }
    let ghost all = decorator_shells(input@)->Some_0;
    assert(all =~= spans@.map_values(|p: (usize, usize)| (p.0 as int, p.1 as int)));
    let mut shells: Vec<String> = Vec::new();
    let mut k: usize = 0;
    while k < spans.len()
        invariant
            s@ == input@,
            0 <= k <= spans@.len(),
            shells@.len() == k,
            all == spans@.map_values(|p: (usize, usize)| (p.0 as int, p.1 as int)),
            forall|m: int| 0 <= m < spans@.len() ==> (#[trigger] spans@[m]).0 <= spans@[m].1 <= s@.len(),
            forall|m: int| 0 <= m < k ==> (#[trigger] shells@[m])@ == input@.subrange(all[m].0, all[m].1),
        decreases spans.len() - k,
    {
        let (a, b) = spans[k];
        shells.push(String::from_str(input.substring_char(a, b)));
        k = k + 1;
    }
    Some(shells)
}

} // verus!
