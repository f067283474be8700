//! Cleaning up tool output that mixes log noise with a JSON object: only the
//! lines that open an object are kept, then the text is parsed and written
//! back as compact JSON.

use vstd::prelude::*;

verus! {

/// Unicode `White_Space`: the characters that `char::is_whitespace` accepts.
pub open spec fn is_white_space(c: char) -> bool {
    let u = c as u32;
    (0x9 <= u <= 0xd) || u == 0x20 || u == 0x85 || u == 0xa0 || u == 0x1680 || (0x2000 <= u
        <= 0x200a) || u == 0x2028 || u == 0x2029 || u == 0x202f || u == 0x205f || u == 0x3000
}

/// Whether the first character of `l` that is not white space is `{`.
pub open spec fn opens_object(l: Seq<char>) -> bool
    decreases l.len(),
{
    if l.len() == 0 {
        false
    } else if is_white_space(l[0]) {
        opens_object(l.skip(1))
    } else {
        l[0] == '{'
    }
}

/// Position of the first line feed of `s`, or its length if it has none.
pub open spec fn line_end(s: Seq<char>) -> nat
    decreases s.len(),
{
    if s.len() == 0 || s[0] == '\n' {
        0
    } else {
        1 + line_end(s.skip(1))
    }
}

/// The lines of `s` that open an object, concatenated without their line
/// endings. Lines end at `\n` or `\r\n`; the last line needs no ending.
pub open spec fn object_lines(s: Seq<char>) -> Seq<char>
    decreases s.len(),
{
    if s.len() == 0 {
        Seq::empty()
    } else {
        let n = line_end(s) as int;
        let line = s.take(n);
        let body = if n < s.len() && n > 0 && line.last() == '\r' {
            line.drop_last()
        } else {
            line
        };
        let rest = if n < s.len() {
            s.skip(n + 1)
        } else {
            Seq::empty()
        };
        (if opens_object(body) {
            body
        } else {
            Seq::empty()
        }) + object_lines(rest)
    }
}

/// Whether `c` is white space.
pub fn white_space(c: char) -> (r: bool)
    ensures
        r == is_white_space(c),
{
    let u = c as u32;
    (0x9 <= u && u <= 0xd) || u == 0x20 || u == 0x85 || u == 0xa0 || u == 0x1680 || (0x2000 <= u
        && u <= 0x200a) || u == 0x2028 || u == 0x2029 || u == 0x202f || u == 0x205f || u == 0x3000
}

proof fn lemma_line_end(t: Seq<char>, k: int)
    requires
        0 <= k <= t.len(),
        forall|j: int| 0 <= j < k ==> t[j] != '\n',
        k == t.len() || t[k] == '\n',
    ensures
        line_end(t) == k,
    decreases k,
{
    if k > 0 {
        lemma_line_end(t.skip(1), k - 1);
    }
}

proof fn lemma_opens_object(l: Seq<char>, k: int)
    requires
        0 <= k <= l.len(),
        forall|j: int| 0 <= j < k ==> is_white_space(l[j]),
        k == l.len() || !is_white_space(l[k]),
    ensures
        opens_object(l) == (k < l.len() && l[k] == '{'),
    decreases k,
{
    if k > 0 {
        lemma_opens_object(l.skip(1), k - 1);
    }
}

/// The lines of `text` that open an object, concatenated without their line
/// endings.
pub fn select_object_lines(text: &Vec<char>) -> (r: Vec<char>)
    ensures
        r@ == object_lines(text@),
{
    let mut out: Vec<char> = Vec::new();
    let n = text.len();
    let mut pos: usize = 0;
    assert(text@.skip(0) =~= text@);
    assert(out@ + object_lines(text@) =~= object_lines(text@));
    while pos < n
        invariant
            pos <= n == text.len(),
            out@ + object_lines(text@.skip(pos as int)) == object_lines(text@),
        decreases n - pos,
    {
        let ghost t = text@.skip(pos as int);
        let mut e: usize = pos;
        while e < n && text[e] != '\n'
            invariant
                pos <= e <= n == text.len(),
                forall|j: int| pos <= j < e ==> text@[j] != '\n',
            decreases n - e,
        {
            e += 1;
        }
        proof {
            lemma_line_end(t, e - pos);
        }
        let mut b: usize = e;
        if e < n && e > pos && text[e - 1] == '\r' {
            b = e - 1;
        }
        let mut k: usize = pos;
        while k < b && white_space(text[k])
            invariant
                pos <= k <= b <= n == text.len(),
                forall|j: int| pos <= j < k ==> is_white_space(text@[j]),
            decreases b - k,
        {
            k += 1;
        }
        let ghost body = text@.subrange(pos as int, b as int);
        proof {
            lemma_opens_object(body, k - pos);
            let line = t.take(e - pos);
            if e < n && e > pos && line.last() == '\r' {
                assert(line.drop_last() =~= body);
            } else {
                assert(line =~= body);
            }
            if e < n {
                assert(t.skip(e - pos + 1) =~= text@.skip(e + 1));
            } else {
                assert(text@.skip(n as int) =~= Seq::<char>::empty());
            }
        }
        let ghost before = out@;
        if k < b && text[k] == '{' {
            let mut j: usize = pos;
            while j < b
                invariant
                    pos <= j <= b <= n == text.len(),
                    out@ == before + text@.subrange(pos as int, j as int),
                decreases b - j,
            {
                out.push(text[j]);
                j += 1;
                assert(out@ =~= before + text@.subrange(pos as int, j as int));
            }
        } else {
            assert(out@ =~= before + Seq::empty());
        }
        if e < n {
            pos = e + 1;
        } else {
            pos = n;
        }
        assert(before + object_lines(t) =~= out@ + object_lines(text@.skip(pos as int)));
    }
    assert(text@.skip(n as int) =~= Seq::<char>::empty());
    assert(out@ + Seq::<char>::empty() =~= out@);
    out
}


/// Why tool output could not be turned into JSON.
#[derive(Clone, Copy, Debug, PartialEq, Eq, Structural)]
pub enum JsonOutputError {
    /// The lines that open an object do not form valid JSON.
    Malformed,
}

#[verifier::external_type_specification]
#[verifier::external_body]
pub struct ExJsonError(serde_json::Error);

/// Whether `s` is JSON text that `serde_json` accepts as a value.
pub uninterp spec fn parses_as_json(s: Seq<char>) -> bool;

/// The compact JSON text that `serde_json` writes for the value parsed from `s`.
pub uninterp spec fn compact_json_of(s: Seq<char>) -> Seq<char>;

/// Relies on `str::chars`: the characters of the string, in order.
#[verifier::external_body]
fn chars_of(s: &str) -> (r: Vec<char>)
    ensures
        r@ == s@,
{
    s.chars().collect()
}

/// Relies on `String: FromIterator<char>`: the string of the given characters.
#[verifier::external_body]
fn string_of(cs: &Vec<char>) -> (r: String)
    ensures
        r@ == cs@,
{
    cs.iter().collect()
}

/// Relies on `serde_json::from_str::<Value>` followed by `serde_json::to_string`:
/// parsing succeeds exactly on the texts it accepts, which depends on the text
/// alone; writing a `Value` back cannot fail, since its `Serialize` impl never
/// fails of its own accord and its map keys are strings.
#[verifier::external_body]
fn compact_json(s: &str) -> (r: Result<String, serde_json::Error>)
    ensures
        r is Ok <==> parses_as_json(s@),
        r is Ok ==> r->Ok_0@ == compact_json_of(s@),
{
    let value: serde_json::Value = serde_json::from_str(s)?;
    serde_json::to_string(&value)
}

/// The lines of `output` that open an object, concatenated without their
/// line endings.
pub fn json_object_lines(output: &str) -> (r: String)
    ensures
        r@ == object_lines(output@),
{
    let cs = chars_of(output);
    let kept = select_object_lines(&cs);
    string_of(&kept)
}

/// Keeps the lines of `output` that open an object, parses what they form
/// as JSON and writes it back as compact JSON text.
pub fn process_json_output(output: &str) -> (r: Result<String, JsonOutputError>)
    ensures
        parses_as_json(object_lines(output@)) ==> r is Ok && r->Ok_0@ == compact_json_of(
            object_lines(output@),
        ),
        !parses_as_json(object_lines(output@)) ==> r == Err::<String, JsonOutputError>(
            JsonOutputError::Malformed,
        ),
{
    let cleaned = json_object_lines(output);
    match compact_json(cleaned.as_str()) {
        Ok(text) => Ok(text),
        Err(_) => Err(JsonOutputError::Malformed),
    }
}

} // verus!
