//! The command line of the `jp2lam` tool: its sub-commands, their paths and the quality forms
//! it takes (`q50`, `Q50`, `50`, `--quality=50`, `--quality 50`, `-q 50`).
use vstd::prelude::*;
use vstd::string::*;
use crate::model::ColorSpace;

verus! {

/// What the tool is asked to do.
#[derive(Debug, Clone, PartialEq, Eq)]
pub enum CliCommand {
    Encode { input_path: String, quality: Option<u8> },
    EncodeDir { input_dir: String, output_dir: Option<String>, quality: Option<u8> },
    Decode { input_path: String, output_path: Option<String> },
    DecodeDir { input_dir: String, output_dir: Option<String> },
    DecodeZip { input_path: String, output_dir: Option<String> },
}

/// The parsed command line.
#[derive(Debug, Clone, PartialEq, Eq)]
pub struct CliArgs {
    pub command: CliCommand,
}

/// The usage text: the forms of the command line.
pub open spec fn usage_text() -> Seq<char> {
    "usage: jp2lam <input> [q0..q100]\n       jp2lam encode <input> [q0..q100]\n       jp2lam encode-dir <input-dir> [output-dir] [q0..q100]\n       jp2lam decode <input.jp2> [output.png]\n       jp2lam decode-dir <input-dir> [output-dir]\n       jp2lam decode-zip <archive.zip> [output-dir]"@
}

/// The usage text.
pub fn usage() -> (s: &'static str)
    ensures
        s@ == usage_text(),
{
    "usage: jp2lam <input> [q0..q100]\n       jp2lam encode <input> [q0..q100]\n       jp2lam encode-dir <input-dir> [output-dir] [q0..q100]\n       jp2lam decode <input.jp2> [output.png]\n       jp2lam decode-dir <input-dir> [output-dir]\n       jp2lam decode-zip <archive.zip> [output-dir]"
}

/// The quality used when none is given: 85 for grayscale, 62 for colour.
pub fn default_quality(colorspace: ColorSpace) -> (q: u8)
    ensures
        q == (if colorspace == ColorSpace::Gray { 85u8 } else { 62u8 }),
{
    match colorspace {
        ColorSpace::Gray => 85,
        _ => 62,
    }
}

// ----------------------------------------------------------------------------
// Quality tokens
// ----------------------------------------------------------------------------

/// White space as `str::trim` takes it (the Unicode White_Space property).
pub open spec fn is_white(c: char) -> bool {
    let v = c as u32;
    (0x9 <= v <= 0xd) || v == 0x20 || v == 0x85 || v == 0xa0 || v == 0x1680 || (0x2000 <= v <= 0x200a)
        || v == 0x2028 || v == 0x2029 || v == 0x202f || v == 0x205f || v == 0x3000
}

/// The first position from `i` on that is not white space.
pub open spec fn first_non_white(s: Seq<char>, i: nat) -> nat
    decreases s.len() - i,
{
    if i >= s.len() || !is_white(s[i as int]) { i } else { first_non_white(s, i + 1) }
}

/// The end of `s` before its trailing white space, looking down from `e`.
pub open spec fn last_non_white(s: Seq<char>, lo: nat, e: nat) -> nat
    decreases e,
{
    if e <= lo || !is_white(s[e - 1]) { e } else { last_non_white(s, lo, (e - 1) as nat) }
}

/// `s` without leading and trailing white space.
pub open spec fn trim_spec(s: Seq<char>) -> Seq<char> {
    let lo = first_non_white(s, 0);
    s.subrange(lo as int, last_non_white(s, lo, s.len()) as int)
}

/// `s` without one leading `q` or `Q`.
pub open spec fn strip_q(s: Seq<char>) -> Seq<char> {
    if s.len() > 0 && (s[0] == 'q' || s[0] == 'Q') { s.drop_first() } else { s }
}

/// Every character is an ASCII digit.
pub open spec fn all_digits(s: Seq<char>) -> bool {
    forall|i: int| 0 <= i < s.len() ==> '0' <= #[trigger] s[i] <= '9'
}

/// The decimal value of a string of digits.
pub open spec fn digits_value(s: Seq<char>) -> nat
    decreases s.len(),
{
    if s.len() == 0 { 0 } else { digits_value(s.drop_last()) * 10 + ((s.last() as u32) - 48) as nat }
}

/// Whether a token names a quality: digits, after trimming and one optional `q`/`Q`.
pub open spec fn quality_token_spec(s: Seq<char>) -> bool {
    let n = strip_q(trim_spec(s));
    n.len() > 0 && all_digits(n)
}

/// The quality a value names: after trimming and one optional `q`/`Q`, a decimal number (with an
/// optional `+`) of at most 100.
pub open spec fn quality_spec(s: Seq<char>) -> Option<u8> {
    let n = strip_q(trim_spec(s));
    let d = if n.len() > 0 && n[0] == '+' { n.drop_first() } else { n };
    if d.len() > 0 && all_digits(d) && digits_value(d) <= 100 { Some(digits_value(d) as u8) } else { None }
}

/// The bounds of `s` after trimming and one optional `q`/`Q`.
fn number_bounds(s: &str) -> (r: (usize, usize))
    ensures
        r.0 <= r.1 <= s@.len(),
        s@.subrange(r.0 as int, r.1 as int) == strip_q(trim_spec(s@)),
{
    let n = s.unicode_len();
    let mut lo: usize = 0;
    while lo < n && is_white_char(s.get_char(lo))
        invariant
            n == s@.len(),
            lo <= n,
            first_non_white(s@, 0) == first_non_white(s@, lo as nat),
        decreases n - lo,
    {
        lo = lo + 1;
    }
    let mut hi: usize = n;
    while hi > lo && is_white_char(s.get_char(hi - 1))
        invariant
            n == s@.len(),
            lo <= hi <= n,
            lo == first_non_white(s@, 0),
            last_non_white(s@, lo as nat, n as nat) == last_non_white(s@, lo as nat, hi as nat),
        decreases hi,
    {
        hi = hi - 1;
    }
    let ghost t = s@.subrange(lo as int, hi as int);
    assert(t == trim_spec(s@));
    if hi > lo {
        let c = s.get_char(lo);
        if c == 'q' || c == 'Q' {
            assert(s@.subrange(lo + 1, hi as int) =~= t.drop_first());
            return (lo + 1, hi);
        }
    }
    (lo, hi)
}

/// Whether `c` is white space as `str::trim` takes it.
fn is_white_char(c: char) -> (b: bool)
    ensures
        b == is_white(c),
{
    let v = c as u32;
    (0x9 <= v && v <= 0xd) || v == 0x20 || v == 0x85 || v == 0xa0 || v == 0x1680 || (0x2000 <= v && v <= 0x200a)
        || v == 0x2028 || v == 0x2029 || v == 0x202f || v == 0x205f || v == 0x3000
}

/// Whether the characters of `s` in `[lo, hi)` are all ASCII digits.
fn digits_in(s: &str, lo: usize, hi: usize) -> (b: bool)
    requires
        lo <= hi <= s@.len(),
    ensures
        b == all_digits(s@.subrange(lo as int, hi as int)),
{
    let mut i = lo;
    while i < hi
        invariant
            lo <= i <= hi <= s@.len(),
            forall|j: int| lo <= j < i ==> '0' <= #[trigger] s@[j] <= '9',
        decreases hi - i,
    {
        let c = s.get_char(i);
        if !('0' <= c && c <= '9') {
            assert(!all_digits(s@.subrange(lo as int, hi as int))) by {
                assert(s@.subrange(lo as int, hi as int)[i - lo] == c);
            }
            return false;
        }
        i = i + 1;
    }
    assert forall|j: int| 0 <= j < hi - lo implies '0' <= #[trigger] s@.subrange(lo as int, hi as int)[j] <= '9' by {
        assert(s@.subrange(lo as int, hi as int)[j] == s@[lo + j]);
    }
    true
}

/// Whether a token names a quality: `q50`, `Q50` or `50`, around white space.
pub fn is_quality_token(value: &str) -> (b: bool)
    ensures
        b == quality_token_spec(value@),
{
    let (lo, hi) = number_bounds(value);
    hi > lo && digits_in(value, lo, hi)
}

proof fn lemma_digits_value_prefix(s: Seq<char>, k: int)
    requires
        0 <= k < s.len(),
    ensures
        digits_value(s.subrange(0, k + 1)) == digits_value(s.subrange(0, k)) * 10 + ((s[k] as u32) - 48) as nat,
{
    assert(s.subrange(0, k + 1).drop_last() =~= s.subrange(0, k));
}

proof fn lemma_digits_value_grows(s: Seq<char>, k: int, j: int)
    requires
        0 <= k <= j <= s.len(),
        all_digits(s),
    ensures
        digits_value(s.subrange(0, k)) <= digits_value(s.subrange(0, j)),
    decreases j - k,
{
    if k < j {
        lemma_digits_value_grows(s, k, j - 1);
        lemma_digits_value_prefix(s, j - 1);
    }
}

/// The quality a value names: `q0` to `q100`, in any of the accepted forms.
pub fn parse_quality(value: &str) -> (r: Result<u8, String>)
    ensures
        r is Ok <==> quality_spec(value@) is Some,
        r matches Ok(q) ==> Some(q) == quality_spec(value@),
        r matches Err(m) ==> m@ == "invalid quality `"@ + value@ + "`; expected q0..q100"@,
{
    let (lo0, hi) = number_bounds(value);
    let ghost n = value@.subrange(lo0 as int, hi as int);
    let lo = if hi > lo0 && value.get_char(lo0) == '+' { lo0 + 1 } else { lo0 };
    let ghost d = value@.subrange(lo as int, hi as int);
    assert(d == (if n.len() > 0 && n[0] == '+' { n.drop_first() } else { n }));
    if hi <= lo || !digits_in(value, lo, hi) {
        return Err(quality_error(value));
    }
    assert(quality_spec(value@) == (if digits_value(d) <= 100 { Some(digits_value(d) as u8) } else { None::<u8> }));
    let mut v: u32 = 0;
    let mut i = lo;
    while i < hi
        invariant
            lo <= i <= hi <= value@.len(),
            d == value@.subrange(lo as int, hi as int),
            d.len() > 0,
            quality_spec(value@) == (if digits_value(d) <= 100 { Some(digits_value(d) as u8) } else { None::<u8> }),
            all_digits(d),
            v as nat == digits_value(d.subrange(0, i - lo)),
            v <= 100,
        decreases hi - i,
    {
        let c = value.get_char(i);
        proof {
            assert(d[i - lo] == c);
            lemma_digits_value_prefix(d, i - lo);
        }
        let next = v * 10 + (c as u32 - 48);
        assert(digits_value(d.subrange(0, i - lo + 1)) == next);
        if next > 100 {
            proof {
                lemma_digits_value_grows(d, i - lo + 1, d.len() as int);
                assert(d.subrange(0, d.len() as int) =~= d);
                assert(digits_value(d) > 100);
            }
            return Err(quality_error(value));
        }
        v = next;
        i = i + 1;
    }
    assert(d.subrange(0, hi - lo) =~= d);
    Ok(v as u8)
}

/// The message for a value that names no quality.
fn quality_error(value: &str) -> (s: String)
    ensures
        s@ == "invalid quality `"@ + value@ + "`; expected q0..q100"@,
{
    let mut m = String::from_str("invalid quality `");
    m.append(value);
    m.append("`; expected q0..q100");
    m
}

// ----------------------------------------------------------------------------
// The command line
// ----------------------------------------------------------------------------

/// The code of `c` with ASCII upper case folded to lower case.
pub open spec fn ascii_lower(c: char) -> u32 {
    let v = c as u32;
    if 65 <= v <= 90 { (v + 32) as u32 } else { v }
}

/// `s` is the word `w` up to ASCII case.
pub open spec fn eq_ignore_ascii_case_spec(s: Seq<char>, w: Seq<char>) -> bool {
    s.len() == w.len() && forall|i: int| 0 <= i < s.len() ==> ascii_lower(#[trigger] s[i]) == ascii_lower(w[i])
}

/// Whether `s` is the word `w`.
fn word_is(s: &String, w: &str) -> (b: bool)
    ensures
        b == (s@ == w@),
{
    let t = s.as_str();
    let n = t.unicode_len();
    if n != w.unicode_len() {
        return false;
    }
    let mut i: usize = 0;
    while i < n
        invariant
            n == t@.len(),
            n == w@.len(),
            t@ == s@,
            i <= n,
            forall|j: int| 0 <= j < i ==> t@[j] == w@[j],
        decreases n - i,
    {
        if t.get_char(i) != w.get_char(i) {
            return false;
        }
        i = i + 1;
    }
    assert(t@ =~= w@);
    true
}

/// Whether `s` is the word `w` up to ASCII case.
fn word_is_ignoring_case(s: &String, w: &str) -> (b: bool)
    ensures
        b == eq_ignore_ascii_case_spec(s@, w@),
{
    let t = s.as_str();
    let n = t.unicode_len();
    if n != w.unicode_len() {
        return false;
    }
    let mut i: usize = 0;
    while i < n
        invariant
            n == t@.len(),
            n == w@.len(),
            t@ == s@,
            i <= n,
            forall|j: int| 0 <= j < i ==> ascii_lower(#[trigger] t@[j]) == ascii_lower(w@[j]),
        decreases n - i,
    {
        let a = lower_char(t.get_char(i));
        let b = lower_char(w.get_char(i));
        if a != b {
            return false;
        }
        i = i + 1;
    }
    true
}

fn lower_char(c: char) -> (r: u32)
    ensures
        r == ascii_lower(c),
{
    let v = c as u32;
    if 65 <= v && v <= 90 { v + 32 } else { v }
}

/// What a command says, over the characters of its paths.
pub enum CommandView {
    Encode(Seq<char>, Option<u8>),
    EncodeDir(Seq<char>, Option<Seq<char>>, Option<u8>),
    Decode(Seq<char>, Option<Seq<char>>),
    DecodeDir(Seq<char>, Option<Seq<char>>),
    DecodeZip(Seq<char>, Option<Seq<char>>),
}

pub open spec fn opt_view(o: Option<String>) -> Option<Seq<char>> {
    match o { Some(s) => Some(s@), None => None }
}

/// What a command says.
pub open spec fn command_view(c: CliCommand) -> CommandView {
    match c {
        CliCommand::Encode { input_path, quality } => CommandView::Encode(input_path@, quality),
        CliCommand::EncodeDir { input_dir, output_dir, quality } => CommandView::EncodeDir(input_dir@, opt_view(output_dir), quality),
        CliCommand::Decode { input_path, output_path } => CommandView::Decode(input_path@, opt_view(output_path)),
        CliCommand::DecodeDir { input_dir, output_dir } => CommandView::DecodeDir(input_dir@, opt_view(output_dir)),
        CliCommand::DecodeZip { input_path, output_dir } => CommandView::DecodeZip(input_path@, opt_view(output_dir)),
    }
}

/// The characters of each argument.
pub open spec fn argv(args: Seq<String>) -> Seq<Seq<char>> {
    Seq::new(args.len(), |i: int| args[i]@)
}

/// The arguments of an encode command from `i` on: quality options and tokens, the input path
/// and, for a directory, the output path; `None` when an argument is refused.
pub open spec fn option_walk(a: Seq<Seq<char>>, i: nat, dir: bool, input: Option<nat>, output: Option<nat>, q: Option<u8>)
    -> Option<(Option<nat>, Option<nat>, Option<u8>)>
    decreases a.len() - i,
{
    if i >= a.len() {
        Some((input, output, q))
    } else {
        let s = a[i as int];
        if s == "--quality"@ || s == "-q"@ {
            if i + 1 >= a.len() {
                None
            } else {
                match quality_spec(a[(i + 1) as int]) {
                    None => None,
                    Some(v) => option_walk(a, i + 2, dir, input, output, Some(v)),
                }
            }
        } else if s.len() >= 10 && s.subrange(0, 10) == "--quality="@ {
            match quality_spec(s.subrange(10, s.len() as int)) {
                None => None,
                Some(v) => option_walk(a, i + 1, dir, input, output, Some(v)),
            }
        } else if quality_token_spec(s) {
            match quality_spec(s) {
                None => None,
                Some(v) => option_walk(a, i + 1, dir, input, output, Some(v)),
            }
        } else if input is None {
            option_walk(a, i + 1, dir, Some(i), output, q)
        } else if dir && output is None {
            option_walk(a, i + 1, dir, input, Some(i), q)
        } else {
            None
        }
    }
}

/// The command of an encode (or encode-dir) argument list starting at `start`.
pub open spec fn encode_spec(a: Seq<Seq<char>>, start: nat, dir: bool) -> Option<CommandView> {
    match option_walk(a, start, dir, None, None, None) {
        Some((Some(k), out, q)) => Some(if dir {
            CommandView::EncodeDir(a[k as int], match out { Some(o) => Some(a[o as int]), None => None }, q)
        } else {
            CommandView::Encode(a[k as int], q)
        }),
        _ => None,
    }
}

/// The input and optional output of a decode argument list starting at `start`.
pub open spec fn io_spec(a: Seq<Seq<char>>, start: nat) -> Option<(Seq<char>, Option<Seq<char>>)> {
    if a.len() <= start {
        None
    } else if a.len() == start + 1 {
        Some((a[start as int], None))
    } else if a.len() == start + 2 {
        Some((a[start as int], Some(a[(start + 1) as int])))
    } else {
        None
    }
}

/// The command a whole argument list gives: an optional leading `jp2lam`, then a sub-command
/// with its arguments, or the arguments of a plain encode.
pub open spec fn parse_spec(a: Seq<Seq<char>>) -> Option<CommandView> {
    let start: nat = if a.len() >= 1 && eq_ignore_ascii_case_spec(a[0], "jp2lam"@) { 1 } else { 0 };
    if a.len() > start {
        let c = a[start as int];
        if c == "encode"@ {
            encode_spec(a, start + 1, false)
        } else if c == "encode-dir"@ || c == "encode_dir"@ {
            encode_spec(a, start + 1, true)
        } else if c == "decode"@ {
            match io_spec(a, start + 1) { Some((i, o)) => Some(CommandView::Decode(i, o)), None => None }
        } else if c == "decode-dir"@ || c == "decode_dir"@ {
            match io_spec(a, start + 1) { Some((i, o)) => Some(CommandView::DecodeDir(i, o)), None => None }
        } else if c == "decode-zip"@ || c == "decode_zip"@ {
            match io_spec(a, start + 1) { Some((i, o)) => Some(CommandView::DecodeZip(i, o)), None => None }
        } else {
            encode_spec(a, start, false)
        }
    } else {
        encode_spec(a, start, false)
    }
}

/// Whether `s` starts with `--quality=`.
fn has_quality_prefix(s: &String) -> (b: bool)
    ensures
        b == (s@.len() >= 10 && s@.subrange(0, 10) == "--quality="@),
{
    let t = s.as_str();
    let p = "--quality=";
    proof { reveal_strlit("--quality="); }
    let n = t.unicode_len();
    if n < 10 {
        return false;
    }
    let mut i: usize = 0;
    while i < 10
        invariant
            t@ == s@,
            n == t@.len(),
            n >= 10,
            p@ == "--quality="@,
            p@.len() == 10,
            i <= 10,
            forall|j: int| 0 <= j < i ==> t@[j] == p@[j],
        decreases 10 - i,
    {
        if t.get_char(i) != p.get_char(i) {
            return false;
        }
        i = i + 1;
    }
    assert(t@.subrange(0, 10) =~= p@);
    true
}

/// The arguments of an encode or encode-dir command from `start` on.
fn parse_encode_args(args: &Vec<String>, start: usize, dir: bool) -> (r: Result<CliArgs, String>)
    requires
        start <= args@.len(),
    ensures
        r is Ok <==> encode_spec(argv(args@), start as nat, dir) is Some,
        r matches Ok(c) ==> Some(command_view(c.command)) == encode_spec(argv(args@), start as nat, dir),
{
    let ghost a = argv(args@);
    let n = args.len();
    let mut input: Option<usize> = None;
    let mut output: Option<usize> = None;
    let mut quality: Option<u8> = None;
    let mut i = start;
    proof {
        reveal_strlit("--quality");
        reveal_strlit("-q");
    }
    while i < n
        invariant
            n == args@.len(),
            a == argv(args@),
            start <= i <= n,
            input matches Some(k) ==> k < n,
            output matches Some(k) ==> k < n,
            option_walk(a, start as nat, dir, None, None, None)
                == option_walk(a, i as nat, dir, match input { Some(k) => Some(k as nat), None => None },
                    match output { Some(k) => Some(k as nat), None => None }, quality),
        decreases n - i,
    {
        let arg = &args[i];
        assert(a[i as int] == arg@);
        if word_is(arg, "--quality") || word_is(arg, "-q") {
            if i + 1 >= n {
                return Err(missing_value(arg));
            }
            assert(a[i + 1] == args@[i + 1]@);
            match parse_quality(args[i + 1].as_str()) {
                Ok(q) => { quality = Some(q); },
                Err(e) => { return Err(e); },
            }
            i = i + 2;
        } else if has_quality_prefix(arg) {
            let t = arg.as_str();
            let value = t.substring_char(10, t.unicode_len());
            match parse_quality(value) {
                Ok(q) => { quality = Some(q); },
                Err(e) => { return Err(e); },
            }
            i = i + 1;
        } else if is_quality_token(arg.as_str()) {
            match parse_quality(arg.as_str()) {
                Ok(q) => { quality = Some(q); },
                Err(e) => { return Err(e); },
            }
            i = i + 1;
        } else if input.is_none() {
            input = Some(i);
            i = i + 1;
        } else if dir && output.is_none() {
            output = Some(i);
            i = i + 1;
        } else {
            return Err(extra_argument(arg));
        }
    }
    match input {
        Some(k) => {
            let input_path = args[k].clone();
            let command = if dir {
                let output_dir = match output {
                    Some(o) => Some(args[o].clone()),
                    None => None,
                };
                CliCommand::EncodeDir { input_dir: input_path, output_dir, quality }
            } else {
                CliCommand::Encode { input_path, quality }
            };
            Ok(CliArgs { command })
        },
        None => Err(String::from_str(usage())),
    }
}

/// The input and optional output path of a decode command from `start` on.
fn parse_io_args(args: &Vec<String>, start: usize) -> (r: Result<(String, Option<String>), String>)
    requires
        start <= args@.len(),
    ensures
        r is Ok <==> io_spec(argv(args@), start as nat) is Some,
        r matches Ok((i, o)) ==> io_spec(argv(args@), start as nat) == Some((i@, opt_view(o))),
{
    let n = args.len();
    if n <= start {
        return Err(String::from_str(usage()));
    }
    let input = args[start].clone();
    if n == start + 1 {
        return Ok((input, None));
    }
    if n == start + 2 {
        return Ok((input, Some(args[start + 1].clone())));
    }
    Err(extra_argument(&args[start + 1]))
}

/// Option parsing from `i` on reads only the arguments from `i` on.
proof fn lemma_walk_reads_suffix(a: Seq<Seq<char>>, b: Seq<Seq<char>>, i: nat, dir: bool, input: Option<nat>,
    output: Option<nat>, q: Option<u8>)
    requires
        a.len() == b.len(),
        forall|j: int| i <= j < a.len() ==> a[j] == b[j],
    ensures
        option_walk(a, i, dir, input, output, q) == option_walk(b, i, dir, input, output, q),
    decreases a.len() - i,
{
    if i < a.len() {
        let s = a[i as int];
        if s == "--quality"@ || s == "-q"@ {
            if i + 1 < a.len() {
                if let Some(v) = quality_spec(a[(i + 1) as int]) {
                    lemma_walk_reads_suffix(a, b, i + 2, dir, input, output, Some(v));
                }
            }
        } else if s.len() >= 10 && s.subrange(0, 10) == "--quality="@ {
            if let Some(v) = quality_spec(s.subrange(10, s.len() as int)) {
                lemma_walk_reads_suffix(a, b, i + 1, dir, input, output, Some(v));
            }
        } else if quality_token_spec(s) {
            if let Some(v) = quality_spec(s) {
                lemma_walk_reads_suffix(a, b, i + 1, dir, input, output, Some(v));
            }
        } else if input is None {
            lemma_walk_reads_suffix(a, b, i + 1, dir, Some(i), output, q);
        } else if dir && output is None {
            lemma_walk_reads_suffix(a, b, i + 1, dir, input, Some(i), q);
        }
    }
}

/// The short option `-q` is read exactly as `--quality`: wherever it stands among the arguments
/// of an encode command, replacing it by `--quality` changes nothing that parsing gives.
pub proof fn lemma_short_quality_is_long(a: Seq<Seq<char>>, i: nat, dir: bool, input: Option<nat>,
    output: Option<nat>, q: Option<u8>)
    requires
        i < a.len(),
        a[i as int] == "-q"@,
    ensures
        option_walk(a, i, dir, input, output, q)
            == option_walk(a.update(i as int, "--quality"@), i, dir, input, output, q),
{
    let b = a.update(i as int, "--quality"@);
    if i + 1 < a.len() {
        assert(b[(i + 1) as int] == a[(i + 1) as int]);
        if let Some(v) = quality_spec(a[(i + 1) as int]) {
            lemma_walk_reads_suffix(a, b, i + 2, dir, input, output, Some(v));
        }
    }
}

/// `encode <path> -q <value>` asks to encode `<path>` at the quality that `<value>` names, as
/// `encode <path> --quality <value>` does, for any path that is not itself an option or a quality.
pub proof fn lemma_encode_short_quality(p: Seq<char>, v: Seq<char>)
    requires
        quality_spec(v) is Some,
        p != "--quality"@,
        p != "-q"@,
        !(p.len() >= 10 && p.subrange(0, 10) == "--quality="@),
        !quality_token_spec(p),
    ensures
        parse_spec(seq!["encode"@, p, "-q"@, v]) == Some(CommandView::Encode(p, quality_spec(v))),
        parse_spec(seq!["encode"@, p, "-q"@, v]) == parse_spec(seq!["encode"@, p, "--quality"@, v]),
{
    reveal_strlit("encode");
    reveal_strlit("jp2lam");
    let a = seq!["encode"@, p, "-q"@, v];
    let b = seq!["encode"@, p, "--quality"@, v];
    assert(!eq_ignore_ascii_case_spec(a[0], "jp2lam"@)) by {
        assert(ascii_lower(a[0][0]) != ascii_lower("jp2lam"@[0]));
    }
    assert(!eq_ignore_ascii_case_spec(b[0], "jp2lam"@)) by {
        assert(ascii_lower(b[0][0]) != ascii_lower("jp2lam"@[0]));
    }
    let qv = quality_spec(v).unwrap();
    assert(option_walk(a, 4, false, Some(1), None, Some(qv)) == Some((Some(1nat), None::<nat>, Some(qv))));
    assert(option_walk(a, 2, false, Some(1), None, None) == Some((Some(1nat), None::<nat>, Some(qv))));
    assert(option_walk(a, 1, false, None, None, None) == Some((Some(1nat), None::<nat>, Some(qv))));
    assert(a.update(2, "--quality"@) =~= b);
    lemma_short_quality_is_long(a, 2, false, Some(1), None, None);
    assert(option_walk(b, 1, false, None, None, None) == Some((Some(1nat), None::<nat>, Some(qv))));
}

/// The message for a quality option without its value.
fn missing_value(arg: &String) -> (s: String)
    ensures
        s@ == usage_text() + "\nmissing value after "@ + arg@,
{
    let mut m = String::from_str(usage());
    m.append("\nmissing value after ");
    m.append(arg.as_str());
    m
}

/// The message for an argument the command does not take.
fn extra_argument(arg: &String) -> (s: String)
    ensures
        s@ == usage_text() + "\nunrecognized extra argument: "@ + arg@,
{
    let mut m = String::from_str(usage());
    m.append("\nunrecognized extra argument: ");
    m.append(arg.as_str());
    m
}

/// Parses the command line: an optional leading `jp2lam`, then `encode`, `encode-dir`,
/// `decode`, `decode-dir` or `decode-zip` with their arguments, or else the arguments of a
/// plain encode.
pub fn parse_args(args: Vec<String>) -> (r: Result<CliArgs, String>)
    ensures
        r is Ok <==> parse_spec(argv(args@)) is Some,
        r matches Ok(c) ==> Some(command_view(c.command)) == parse_spec(argv(args@)),
{
    let ghost a = argv(args@);
    let n = args.len();
    let start: usize = if n >= 1 && word_is_ignoring_case(&args[0], "jp2lam") { 1 } else { 0 };
    proof {
        reveal_strlit("jp2lam");
        if n >= 1 { assert(a[0] == args@[0]@); }
    }
    if n > start {
        let c = &args[start];
        assert(a[start as int] == c@);
        if word_is(c, "encode") {
            return parse_encode_args(&args, start + 1, false);
        }
        if word_is(c, "encode-dir") || word_is(c, "encode_dir") {
            return parse_encode_args(&args, start + 1, true);
        }
        if word_is(c, "decode") {
            let (input_path, output_path) = parse_io_args(&args, start + 1)?;
            return Ok(CliArgs { command: CliCommand::Decode { input_path, output_path } });
        }
        if word_is(c, "decode-dir") || word_is(c, "decode_dir") {
            let (input_dir, output_dir) = parse_io_args(&args, start + 1)?;
            return Ok(CliArgs { command: CliCommand::DecodeDir { input_dir, output_dir } });
        }
        if word_is(c, "decode-zip") || word_is(c, "decode_zip") {
            let (input_path, output_dir) = parse_io_args(&args, start + 1)?;
            return Ok(CliArgs { command: CliCommand::DecodeZip { input_path, output_dir } });
        }
    }
    parse_encode_args(&args, start, false)
}

} // verus!
