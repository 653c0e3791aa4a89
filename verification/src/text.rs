//! Text the engine produces: decimal numbers, the `k*2^n +/- 1` formulas, file
//! stems, labels, and the small string utilities of the command-line tools.
use vstd::prelude::*;
use vstd::string::*;

verus! {

/// The character of a decimal digit.
pub open spec fn digit_char(d: int) -> char {
    (48 + d) as char
}

/// The decimal digits of `v`, most significant first ("0" for zero).
pub open spec fn decimal(v: nat) -> Seq<char>
    decreases v,
{
    if v < 10 {
        seq![digit_char(v as int)]
    } else {
        decimal(v / 10).push(digit_char((v % 10) as int))
    }
}

/// `text` zero-padded on the left to at least `width` characters.
pub open spec fn zero_padded(text: Seq<char>, width: nat) -> Seq<char> {
    if text.len() >= width {
        text
    } else {
        Seq::new((width - text.len()) as nat, |i: int| '0') + text
    }
}

fn digit_str(d: u64) -> (s: &'static str)
    requires
        d < 10,
    ensures
        s@ == seq![digit_char(d as int)],
{
    match d {
        0 => {
            proof {
                reveal_strlit("0");
            }
            "0"
        },
        1 => {
            proof {
                reveal_strlit("1");
            }
            "1"
        },
        2 => {
            proof {
                reveal_strlit("2");
            }
            "2"
        },
        3 => {
            proof {
                reveal_strlit("3");
            }
            "3"
        },
        4 => {
            proof {
                reveal_strlit("4");
            }
            "4"
        },
        5 => {
            proof {
                reveal_strlit("5");
            }
            "5"
        },
        6 => {
            proof {
                reveal_strlit("6");
            }
            "6"
        },
        7 => {
            proof {
                reveal_strlit("7");
            }
            "7"
        },
        8 => {
            proof {
                reveal_strlit("8");
            }
            "8"
        },
        _ => {
            proof {
                reveal_strlit("9");
            }
            "9"
        },
    }
}

/// Appends the decimal digits of `v` to `out`.
pub fn push_decimal(out: &mut String, v: u64)
    ensures
        final(out)@ == old(out)@ + decimal(v as nat),
    decreases v,
{
    if v >= 10 {
        push_decimal(out, v / 10);
    }
    let ghost before = out@;
    out.append(digit_str(v % 10));
    proof {
        if v >= 10 {
            assert(out@ =~= old(out)@ + decimal(v as nat));
        } else {
            assert(out@ =~= old(out)@ + decimal(v as nat));
        }
    }
}

/// The decimal text of `v`.
pub fn decimal_string(v: u64) -> (s: String)
    ensures
        s@ == decimal(v as nat),
{
    let mut s = String::new();
    push_decimal(&mut s, v);
    proof {
        assert(s@ =~= decimal(v as nat));
    }
    s
}

/// The text of `k*2^n-1`.
pub open spec fn spec_formula_minus(k: nat, n: nat) -> Seq<char> {
    decimal(k) + seq!['*', '2', '^'] + decimal(n) + seq!['-', '1']
}

/// The text of `k*2^n+1`.
pub open spec fn spec_formula_plus(k: nat, n: nat) -> Seq<char> {
    decimal(k) + seq!['*', '2', '^'] + decimal(n) + seq!['+', '1']
}

/// The minus-side member of the pair, `k*2^n-1`, as text.
pub fn formula_minus(k: u64, n: u64) -> (s: String)
    ensures
        s@ == spec_formula_minus(k as nat, n as nat),
{
    let mut s = decimal_string(k);
    proof {
        reveal_strlit("*2^");
        reveal_strlit("-1");
    }
    s.append("*2^");
    push_decimal(&mut s, n);
    s.append("-1");
    proof {
        assert(s@ =~= spec_formula_minus(k as nat, n as nat));
    }
    s
}

/// The plus-side member of the pair, `k*2^n+1`, as text.
pub fn formula_plus(k: u64, n: u64) -> (s: String)
    ensures
        s@ == spec_formula_plus(k as nat, n as nat),
{
    let mut s = decimal_string(k);
    proof {
        reveal_strlit("*2^");
        reveal_strlit("+1");
    }
    s.append("*2^");
    push_decimal(&mut s, n);
    s.append("+1");
    proof {
        assert(s@ =~= spec_formula_plus(k as nat, n as nat));
    }
    s
}

/// Appends the decimal digits of `v`, zero-padded on the left to `width` characters.
pub fn push_padded_decimal(out: &mut String, v: u64, width: usize)
    ensures
        final(out)@ == old(out)@ + zero_padded(decimal(v as nat), width as nat),
{
    let digits = decimal_string(v);
    let len = digits.as_str().unicode_len();
    let mut pad: usize = 0;
    proof {
        reveal_strlit("0");
    }
    if len < width {
        let need = width - len;
        while pad < need
            invariant
                pad <= need,
                need == width - len,
                out@ == old(out)@ + Seq::new(pad as nat, |i: int| '0'),
            decreases need - pad,
        {
            proof {
                reveal_strlit("0");
            }
            out.append("0");
            pad += 1;
            proof {
                assert(out@ =~= old(out)@ + Seq::new(pad as nat, |i: int| '0'));
            }
        }
    }
    let ghost mid = out@;
    out.append(digits.as_str());
    proof {
        if len < width {
            assert(out@ =~= old(out)@ + zero_padded(decimal(v as nat), width as nat));
        } else {
            assert(mid =~= old(out)@);
            assert(out@ =~= old(out)@ + zero_padded(decimal(v as nat), width as nat));
        }
    }
}

/// The file stem of an exported batch: `n<n>_batch<index, 12 digits>`.
pub open spec fn spec_batch_stem(n: nat, batch_index: nat) -> Seq<char> {
    seq!['n'] + decimal(n) + seq!['_', 'b', 'a', 't', 'c', 'h'] + zero_padded(decimal(batch_index), 12)
}

/// The file stem of an exported batch, `n<n>_batch<index>` with the index
/// zero-padded to 12 digits.
pub fn batch_stem(n: u64, batch_index: u64) -> (s: String)
    ensures
        s@ == spec_batch_stem(n as nat, batch_index as nat),
{
    proof {
        reveal_strlit("n");
        reveal_strlit("_batch");
    }
    let mut s = String::from_str("n");
    push_decimal(&mut s, n);
    s.append("_batch");
    push_padded_decimal(&mut s, batch_index, 12);
    proof {
        assert(s@ =~= spec_batch_stem(n as nat, batch_index as nat));
    }
    s
}

/// The label of a finder run's ordering.
pub open spec fn spec_ranking_label(soft_to: Option<usize>, hard_cutoff: int, score_z: Option<usize>) -> Seq<char> {
    match score_z {
        Some(z) => "sieve_score(score_z="@ + decimal(z as nat) + ")"@,
        None => match soft_to {
            Some(v) => if v > hard_cutoff {
                "soft_rerank(soft_to="@ + decimal(v as nat) + ")"@
            } else {
                "natural_order"@
            },
            None => "natural_order"@,
        },
    }
}

/// How a finder run orders its candidates: by sieve score, by soft rerank, or in
/// natural order.
pub fn ranking_label(soft_to: Option<usize>, hard_cutoff: usize, score_z: Option<usize>) -> (s: String)
    ensures
        s@ == spec_ranking_label(soft_to, hard_cutoff as int, score_z),
{
    if let Some(z) = score_z {
        let mut s = String::from_str("sieve_score(score_z=");
        push_decimal(&mut s, z as u64);
        s.append(")");
        return s;
    }
    if let Some(v) = soft_to {
        if v > hard_cutoff {
            let mut s = String::from_str("soft_rerank(soft_to=");
            push_decimal(&mut s, v as u64);
            s.append(")");
            return s;
        }
    }
    String::from_str("natural_order")
}

/// Whether two strings hold the same characters.
pub fn text_eq(a: &str, b: &str) -> (r: bool)
    ensures
        r == (a@ == b@),
{
    let la = a.unicode_len();
    let lb = b.unicode_len();
    if la != lb {
        return false;
    }
    let mut i: usize = 0;
    while i < la
        invariant
            la == a@.len(),
            lb == b@.len(),
            la == lb,
            i <= la,
            forall|j: int| 0 <= j < i ==> a@[j] == b@[j],
        decreases la - i,
    {
        if a.get_char(i) != b.get_char(i) {
            return false;
        }
        i += 1;
    }
    proof {
        assert(a@ =~= b@);
    }
    true
}

/// `s` begins with `--`.
pub open spec fn is_flag_text(s: Seq<char>) -> bool {
    s.len() >= 2 && s[0] == '-' && s[1] == '-'
}

/// Whether the argument looks like a flag (starts with `--`).
pub fn starts_with_dashes(s: &str) -> (r: bool)
    ensures
        r == is_flag_text(s@),
{
    let len = s.unicode_len();
    len >= 2 && s.get_char(0) == '-' && s.get_char(1) == '-'
}

/// The first position `i < len - 1` where `args[i]` is `flag`.
pub open spec fn first_flag_before(args: Seq<String>, flag: Seq<char>, end: int) -> Option<int>
    decreases end,
{
    if end <= 0 {
        None
    } else {
        match first_flag_before(args, flag, end - 1) {
            Some(i) => Some(i),
            None => if args[end - 1]@ == flag { Some(end - 1) } else { None },
        }
    }
}

proof fn lemma_first_flag_stable(args: Seq<String>, flag: Seq<char>, a: int, b: int)
    requires
        a <= b,
        first_flag_before(args, flag, a) is Some,
    ensures
        first_flag_before(args, flag, b) == first_flag_before(args, flag, a),
    decreases b - a,
{
    if a < b {
        lemma_first_flag_stable(args, flag, a, b - 1);
    }
}

/// The argument right after the first occurrence of `flag` that has one after it.
pub open spec fn spec_arg_value(args: Seq<String>, flag: Seq<char>) -> Option<Seq<char>> {
    match first_flag_before(args, flag, args.len() - 1) {
        Some(i) => Some(args[i + 1]@),
        None => None,
    }
}

/// The value given after `flag`: the argument that follows its first occurrence
/// (an occurrence in last position has none).
pub fn arg_value(args: &Vec<String>, flag: &str) -> (r: Option<String>)
    ensures
        r matches Some(v) ==> spec_arg_value(args@, flag@) == Some(v@),
        r is None ==> spec_arg_value(args@, flag@) is None,
{
    if args.len() < 2 {
        return None;
    }
    let mut i: usize = 0;
    while i < args.len() - 1
        invariant
            args@.len() >= 2,
            i + 1 <= args@.len(),
            first_flag_before(args@, flag@, i as int) is None,
        decreases args@.len() - i,
    {
        if text_eq(args[i].as_str(), flag) {
            proof {
                assert(first_flag_before(args@, flag@, i + 1) == Some(i as int));
                lemma_first_flag_stable(args@, flag@, i + 1, args@.len() - 1);
            }
            return Some(args[i + 1].clone());
        }
        i += 1;
    }
    proof {
        assert(i + 1 == args@.len());
    }
    None
}

/// Whether `flag` is one of the arguments.
pub fn has_flag(args: &Vec<String>, flag: &str) -> (r: bool)
    ensures
        r == exists|i: int| 0 <= i < args@.len() && (#[trigger] args@[i])@ == flag@,
{
    let mut i: usize = 0;
    while i < args.len()
        invariant
            i <= args@.len(),
            forall|j: int| 0 <= j < i ==> (#[trigger] args@[j])@ != flag@,
        decreases args@.len() - i,
    {
        if text_eq(args[i].as_str(), flag) {
            return true;
        }
        i += 1;
    }
    false
}

/// The texts of a list of strings.
pub open spec fn seq_views(s: Seq<String>) -> Seq<Seq<char>> {
    Seq::new(s.len(), |i: int| s[i]@)
}

/// The arguments from position `j` on, up to the first one that starts with `--`.
pub open spec fn values_from(args: Seq<String>, j: int) -> Seq<Seq<char>>
    decreases args.len() - j,
{
    if j < 0 || j >= args.len() || is_flag_text(args[j]@) {
        seq![]
    } else {
        seq![args[j]@] + values_from(args, j + 1)
    }
}

/// The values after the first occurrence of `flag`, up to the next `--` argument.
pub open spec fn spec_arg_values(args: Seq<String>, flag: Seq<char>) -> Seq<Seq<char>> {
    match first_flag_before(args, flag, args.len() as int) {
        Some(i) => values_from(args, i + 1),
        None => seq![],
    }
}

/// The list given after `flag`: the arguments that follow its first occurrence,
/// up to the next one that starts with `--`.
pub fn arg_values(args: &Vec<String>, flag: &str) -> (out: Vec<String>)
    ensures
        seq_views(out@) == spec_arg_values(args@, flag@),
{
    let mut out: Vec<String> = Vec::new();
    let mut i: usize = 0;
    while i < args.len()
        invariant
            i <= args@.len(),
            first_flag_before(args@, flag@, i as int) is None,
            out@.len() == 0,
        decreases args@.len() - i,
    {
        if text_eq(args[i].as_str(), flag) {
            proof {
                assert(first_flag_before(args@, flag@, i + 1) == Some(i as int));
                lemma_first_flag_stable(args@, flag@, i + 1, args@.len() as int);
            }
            let start = i + 1;
            let mut j = start;
            proof {
                assert(seq_views(out@) =~= seq![]);
                assert(values_from(args@, start as int) =~= seq![] + values_from(args@, start as int));
            }
            while j < args.len() && !starts_with_dashes(args[j].as_str())
                invariant
                    start <= j <= args@.len(),
                    start >= 1,
                    values_from(args@, start as int) == seq_views(out@) + values_from(args@, j as int),
                decreases args@.len() - j,
            {
                let ghost before = out@;
                out.push(args[j].clone());
                proof {
                    let x = args@[j as int]@;
                    assert(values_from(args@, j as int) == seq![x] + values_from(args@, j + 1));
                    assert(seq_views(out@) =~= seq_views(before).push(x));
                    assert(seq_views(before) + (seq![x] + values_from(args@, j + 1)) =~= seq_views(before).push(x)
                        + values_from(args@, j + 1));
                }
                j += 1;
            }
            proof {
                assert(values_from(args@, j as int) =~= seq![]);
                assert(seq_views(out@) + seq![] =~= seq_views(out@));
            }
            return out;
        }
        i += 1;
    }
    proof {
        assert(spec_arg_values(args@, flag@) =~= seq![]);
    }
    out
}

/// An ASCII decimal digit.
pub open spec fn is_digit(c: char) -> bool {
    '0' <= c && c <= '9'
}

/// The value of a string of decimal digits (0 for the empty string).
pub open spec fn digits_value(s: Seq<char>) -> nat
    decreases s.len(),
{
    if s.len() == 0 {
        0
    } else {
        digits_value(s.drop_last()) * 10 + (s.last() as nat - 48) as nat
    }
}

/// The digits part of an unsigned number: the text without one leading `+`.
pub open spec fn unsigned_body(s: Seq<char>) -> Seq<char> {
    if s.len() > 0 && s[0] == '+' {
        s.drop_first()
    } else {
        s
    }
}

/// What parsing `s` as a `usize` gives: an optional `+`, then at least one digit,
/// and a value that fits.
pub open spec fn spec_parse_usize(s: Seq<char>) -> Option<nat> {
    let b = unsigned_body(s);
    if b.len() == 0 || exists|i: int| 0 <= i < b.len() && !is_digit(#[trigger] b[i]) {
        None
    } else if digits_value(b) > usize::MAX {
        None
    } else {
        Some(digits_value(b))
    }
}

/// Parses a decimal `usize`: an optional `+`, then digits only, within range.
pub fn parse_usize(value: &str) -> (r: Option<usize>)
    ensures
        r matches Some(v) ==> spec_parse_usize(value@) == Some(v as nat),
        r is None ==> spec_parse_usize(value@) is None,
{
    let len = value.unicode_len();
    let start: usize = if len > 0 && value.get_char(0) == '+' { 1 } else { 0 };
    let ghost body = unsigned_body(value@);
    proof {
        assert(body =~= value@.subrange(start as int, len as int));
    }
    if start >= len {
        return None;
    }
    let cap: u128 = usize::MAX as u128 + 1;
    let mut acc: u128 = 0;
    let mut i: usize = start;
    while i < len
        invariant
            start <= i <= len,
            len == value@.len(),
            body == value@.subrange(start as int, len as int),
            body == unsigned_body(value@),
            cap == usize::MAX + 1,
            forall|j: int| start <= j < i ==> is_digit(#[trigger] value@[j]),
            acc == (if digits_value(value@.subrange(start as int, i as int)) >= cap {
                cap as int
            } else {
                digits_value(value@.subrange(start as int, i as int)) as int
            }),
        decreases len - i,
    {
        let c = value.get_char(i);
        if !('0' <= c && c <= '9') {
            proof {
                assert(body[i - start] == value@[i as int]);
                assert(!is_digit(body[i - start]));
                assert(exists|j: int| 0 <= j < body.len() && !is_digit(#[trigger] body[j]));
                assert(spec_parse_usize(value@) is None);
            }
            return None;
        }
        let d = (c as u32 - 48) as u128;
        proof {
            let pre = value@.subrange(start as int, i as int);
            let next = value@.subrange(start as int, i + 1);
            assert(next.drop_last() =~= pre);
            assert(next.last() == c);
        }
        if acc >= cap {
            acc = cap;
        } else {
            acc = acc * 10 + d;
            if acc > cap {
                acc = cap;
            }
        }
        i += 1;
    }
    proof {
        assert(value@.subrange(start as int, len as int) == body);
        assert forall|j: int| 0 <= j < body.len() implies is_digit(#[trigger] body[j]) by {
            assert(body[j] == value@[start + j]);
        }
    }
    if acc >= cap {
        None
    } else {
        Some(acc as usize)
    }
}

/// The escaped form of one character inside a JSON string: `\` and `"` get a backslash.
pub open spec fn json_escape_char(c: char) -> Seq<char> {
    if c == '\\' {
        seq!['\\', '\\']
    } else if c == '"' {
        seq!['\\', '"']
    } else {
        seq![c]
    }
}

/// `s` with every backslash and double quote escaped by a backslash.
pub open spec fn json_escaped(s: Seq<char>) -> Seq<char>
    decreases s.len(),
{
    if s.len() == 0 {
        seq![]
    } else {
        json_escaped(s.drop_last()) + json_escape_char(s.last())
    }
}

/// Escapes backslashes and double quotes for a JSON string.
pub fn escape_json(s: &str) -> (out: String)
    ensures
        out@ == json_escaped(s@),
{
    let len = s.unicode_len();
    let mut out = String::new();
    let mut i: usize = 0;
    while i < len
        invariant
            i <= len,
            len == s@.len(),
            out@ == json_escaped(s@.subrange(0, i as int)),
        decreases len - i,
    {
        let c = s.get_char(i);
        proof {
            reveal_strlit("\\\\");
            reveal_strlit("\\\"");
            let next = s@.subrange(0, i + 1);
            assert(next.drop_last() =~= s@.subrange(0, i as int));
            assert(next.last() == c);
        }
        if c == '\\' {
            out.append("\\\\");
        } else if c == '"' {
            out.append("\\\"");
        } else {
            out.append(s.substring_char(i, i + 1));
            proof {
                assert(s@.subrange(i as int, i + 1) =~= seq![c]);
            }
        }
        i += 1;
    }
    proof {
        assert(s@.subrange(0, len as int) =~= s@);
    }
    out
}

/// A character allowed in a file name as it is: ASCII letters and digits, `-`, `_`, `.`.
pub open spec fn file_name_char(c: char) -> bool {
    ||| ('0' <= c && c <= '9')
    ||| ('a' <= c && c <= 'z')
    ||| ('A' <= c && c <= 'Z')
    ||| c == '-'
    ||| c == '_'
    ||| c == '.'
}

/// `s` with every character not allowed in a file name replaced by `_`.
pub open spec fn sanitized(s: Seq<char>) -> Seq<char> {
    Seq::new(s.len(), |i: int| if file_name_char(s[i]) { s[i] } else { '_' })
}

/// Replaces every character other than ASCII letters, digits, `-`, `_` and `.` by `_`.
pub fn sanitize_filename(s: &str) -> (out: String)
    ensures
        out@ == sanitized(s@),
{
    let len = s.unicode_len();
    let mut out = String::new();
    let mut i: usize = 0;
    while i < len
        invariant
            i <= len,
            len == s@.len(),
            out@ == sanitized(s@.subrange(0, i as int)),
        decreases len - i,
    {
        let c = s.get_char(i);
        let keep = ('0' <= c && c <= '9') || ('a' <= c && c <= 'z') || ('A' <= c && c <= 'Z') || c == '-' || c
            == '_' || c == '.';
        let ghost before = out@;
        if keep {
            out.append(s.substring_char(i, i + 1));
        } else {
            proof {
                reveal_strlit("_");
            }
            out.append("_");
        }
        proof {
            assert(out@ =~= sanitized(s@.subrange(0, i + 1)));
        }
        i += 1;
    }
    proof {
        assert(s@.subrange(0, len as int) =~= s@);
    }
    out
}

/// The position of the first argument from `j` on that starts with `--` (or the end).
pub open spec fn values_end(args: Seq<String>, j: int) -> int
    decreases args.len() - j,
{
    if j < 0 || j >= args.len() || is_flag_text(args[j]@) {
        j
    } else {
        values_end(args, j + 1)
    }
}

/// A run of values ends at or after where it starts.
pub proof fn lemma_values_end_ge(args: Seq<String>, j: int)
    ensures
        values_end(args, j) >= j,
        0 <= j <= args.len() ==> values_end(args, j) <= args.len(),
    decreases args.len() - j,
{
    if !(j < 0 || j >= args.len() || is_flag_text(args[j]@)) {
        lemma_values_end_ge(args, j + 1);
    }
}

/// The values after every occurrence of `flag` from position `i` on, each run
/// ending at the next `--` argument, where the scan for `flag` goes on.
pub open spec fn values_after_every(args: Seq<String>, flag: Seq<char>, i: int) -> Seq<Seq<char>>
    decreases args.len() - i,
{
    if i < 0 || i >= args.len() {
        seq![]
    } else if args[i]@ == flag {
        proof {
            lemma_values_end_ge(args, i + 1);
        }
        values_from(args, i + 1) + values_after_every(args, flag, values_end(args, i + 1))
    } else {
        values_after_every(args, flag, i + 1)
    }
}

/// The lists given after every occurrence of `flag`, joined: each list runs up
/// to the next argument that starts with `--`.
pub fn arg_values_every(args: &Vec<String>, flag: &str) -> (out: Vec<String>)
    ensures
        seq_views(out@) == values_after_every(args@, flag@, 0),
{
    let mut out: Vec<String> = Vec::new();
    let mut i: usize = 0;
    proof {
        assert(seq_views(out@) =~= seq![]);
        assert(values_after_every(args@, flag@, 0) =~= seq_views(out@) + values_after_every(args@, flag@, 0));
    }
    while i < args.len()
        invariant
            i <= args@.len(),
            values_after_every(args@, flag@, 0) == seq_views(out@) + values_after_every(args@, flag@, i as int),
        decreases args@.len() - i,
    {
        if text_eq(args[i].as_str(), flag) {
            let ghost at = i as int;
            i += 1;
            proof {
                lemma_values_end_ge(args@, i as int);
                assert(values_after_every(args@, flag@, at) == values_from(args@, i as int) + values_after_every(
                    args@,
                    flag@,
                    values_end(args@, i as int),
                ));
                assert(values_after_every(args@, flag@, 0) =~= seq_views(out@) + (values_from(args@, i as int)
                    + values_after_every(args@, flag@, values_end(args@, i as int))));
            }
            let ghost start = i as int;
            while i < args.len() && !starts_with_dashes(args[i].as_str())
                invariant
                    start <= i <= args@.len(),
                    values_end(args@, i as int) == values_end(args@, start),
                    values_after_every(args@, flag@, 0) == seq_views(out@) + (values_from(args@, i as int)
                        + values_after_every(args@, flag@, values_end(args@, start))),
                decreases args@.len() - i,
            {
                let ghost before = out@;
                out.push(args[i].clone());
                proof {
                    let x = args@[i as int]@;
                    assert(values_from(args@, i as int) == seq![x] + values_from(args@, i + 1));
                    assert(seq_views(out@) =~= seq_views(before).push(x));
                    let rest = values_after_every(args@, flag@, values_end(args@, start));
                    assert(seq_views(before) + ((seq![x] + values_from(args@, i + 1)) + rest) =~= seq_views(out@)
                        + (values_from(args@, i + 1) + rest));
                }
                i += 1;
            }
            proof {
                assert(values_end(args@, i as int) == i);
                assert(values_from(args@, i as int) =~= seq![]);
                let rest = values_after_every(args@, flag@, i as int);
                assert(seq_views(out@) + (seq![] + rest) =~= seq_views(out@) + rest);
            }
        } else {
            i += 1;
        }
    }
    proof {
        assert(values_after_every(args@, flag@, i as int) =~= seq![]);
        assert(seq_views(out@) + seq![] =~= seq_views(out@));
    }
    out
}

} // verus!
