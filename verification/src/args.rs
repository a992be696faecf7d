//! Command-line arguments and the paths that follow from them.

use vstd::prelude::*;
use vstd::string::StringSliceAdditionalSpecFns;
use vstd::utf8::encode_utf8_decode_utf8;

verus! {

/// Whether two strings are the same text.
pub fn same_text(a: &str, b: &str) -> (r: bool)
    ensures
        r == (a@ == b@),
{
    let x: &[u8] = a.as_bytes();
    let y: &[u8] = b.as_bytes();
    proof {
        encode_utf8_decode_utf8(a@);
        encode_utf8_decode_utf8(b@);
    }
    if x.len() != y.len() {
        return false;
    }
    let mut i: usize = 0;
    while i < x.len()
        invariant
            i <= x.len(),
            x@ == a.spec_bytes(),
            y@ == b.spec_bytes(),
            x@.len() == y@.len(),
            x@.take(i as int) == y@.take(i as int),
        decreases x.len() - i,
    {
        if x[i] != y[i] {
            assert(x@[i as int] != y@[i as int]);
            return false;
        }
        assert(x@.take(i + 1) =~= x@.take(i as int).push(x@[i as int]));
        assert(y@.take(i + 1) =~= y@.take(i as int).push(y@[i as int]));
        i = i + 1;
    }
    assert(x@ =~= x@.take(i as int));
    assert(y@ =~= y@.take(i as int));
    true
}

/// Where `flag` stands first among the arguments from `from` on, or the number
/// of arguments where it does not.
pub open spec fn flag_position(args: Seq<String>, flag: Seq<char>, from: int) -> int
    decreases args.len() - from,
{
    if from >= args.len() {
        args.len() as int
    } else if args[from]@ == flag {
        from
    } else {
        flag_position(args, flag, from + 1)
    }
}

/// The position of a flag is that of its first occurrence from `from` on: the
/// argument there is the flag, and none before it is. It is the number of
/// arguments where no argument from `from` on is the flag.
pub proof fn flag_position_is_first(args: Seq<String>, flag: Seq<char>, from: int)
    requires
        0 <= from <= args.len(),
    ensures
        from <= flag_position(args, flag, from) <= args.len(),
        flag_position(args, flag, from) < args.len() ==> args[flag_position(args, flag, from)]@
            == flag,
        forall|j: int|
            from <= j < flag_position(args, flag, from) ==> (#[trigger] args[j])@ != flag,
    decreases args.len() - from,
{
    if from < args.len() && args[from]@ != flag {
        flag_position_is_first(args, flag, from + 1);
    }
}

/// The argument that follows the first `flag`. `None` where there is no such
/// flag, or where it comes last.
pub fn parse_arg(args: &[String], flag: &str) -> (r: Option<String>)
    ensures
        ({
            let at = flag_position(args@, flag@, 0);
            match r {
                Some(value) => at + 1 < args@.len() && value@ == args@[at + 1]@,
                None => at + 1 >= args@.len(),
            }
        }),
        forall|k: int|
            0 <= k && k + 1 < args@.len() && (#[trigger] args@[k])@ == flag@ && (forall|j: int|
                0 <= j < k ==> (#[trigger] args@[j])@ != flag@) ==> r is Some && r->0@ == args@[k
                + 1]@,
        r is None <==> (forall|k: int|
            0 <= k < args@.len() - 1 ==> (#[trigger] args@[k])@ != flag@),
{
    let mut i: usize = 0;
    while i < args.len()
        invariant
            i <= args.len(),
            flag_position(args@, flag@, 0) == flag_position(args@, flag@, i as int),
            forall|j: int| 0 <= j < i ==> (#[trigger] args@[j])@ != flag@,
        decreases args.len() - i,
    {
        if same_text(args[i].as_str(), flag) {
            assert(args@[i as int]@ == flag@);
            if i + 1 < args.len() {
                return Some(args[i + 1].clone());
            }
            return None;
        }
        i = i + 1;
    }
    None
}

/// The text with every occurrence of `pattern` replaced, from the left on.
pub open spec fn replaced(text: Seq<char>, pattern: Seq<char>, with: Seq<char>) -> Seq<char>
    decreases text.len(),
{
    if pattern.len() == 0 || text.len() < pattern.len() {
        text
    } else if text.take(pattern.len() as int) == pattern {
        with + replaced(text.skip(pattern.len() as int), pattern, with)
    } else {
        seq![text[0]] + replaced(text.skip(1), pattern, with)
    }
}

/// A text in which the pattern does not occur stays as it is.
pub proof fn text_without_pattern_stays(text: Seq<char>, pattern: Seq<char>, with: Seq<char>)
    requires
        pattern.len() > 0,
        forall|j: int|
            0 <= j <= text.len() - pattern.len() ==> #[trigger] text.subrange(
                j,
                j + pattern.len(),
            ) != pattern,
    ensures
        replaced(text, pattern, with) == text,
    decreases text.len(),
{
    let n = pattern.len() as int;
    if text.len() >= n {
        assert(text.subrange(0int, 0int + pattern.len()) =~= text.take(n));
        let rest = text.skip(1);
        assert forall|j: int| 0 <= j <= rest.len() - n implies #[trigger] rest.subrange(j, j + n)
            != pattern by {
            assert(rest.subrange(j, j + n) =~= text.subrange(j + 1, j + 1 + n));
        }
        text_without_pattern_stays(rest, pattern, with);
        assert(seq![text[0]] + rest =~= text);
    }
}

/// The first occurrence of the pattern is replaced, what stands before it stays,
/// and what follows it is treated in the same way.
pub proof fn first_occurrence_is_replaced(
    text: Seq<char>,
    pattern: Seq<char>,
    with: Seq<char>,
    i: int,
)
    requires
        pattern.len() > 0,
        0 <= i <= text.len() - pattern.len(),
        text.subrange(i, i + pattern.len()) == pattern,
        forall|j: int|
            0 <= j < i ==> #[trigger] text.subrange(j, j + pattern.len()) != pattern,
    ensures
        replaced(text, pattern, with) == text.take(i) + with + replaced(
            text.skip(i + pattern.len()),
            pattern,
            with,
        ),
    decreases i,
{
    let n = pattern.len() as int;
    assert(text.subrange(0int, 0int + pattern.len()) =~= text.take(n));
    if i == 0 {
        assert(text.take(0) + with =~= with);
    } else {
        let rest = text.skip(1);
        assert forall|j: int| 0 <= j < i - 1 implies #[trigger] rest.subrange(j, j + n)
            != pattern by {
            assert(rest.subrange(j, j + n) =~= text.subrange(j + 1, j + 1 + n));
        }
        assert(rest.subrange(i - 1, i - 1 + n) =~= text.subrange(i, i + n));
        assert(text.take(n) != pattern);
        first_occurrence_is_replaced(rest, pattern, with, i - 1);
        assert(rest.skip(i - 1 + n) =~= text.skip(i + n));
        let tail = replaced(text.skip(i + n), pattern, with);
        assert(seq![text[0]] + (rest.take(i - 1) + with + tail) =~= text.take(i) + with + tail);
    }
}

/// The text with every occurrence of `pattern`, which is not empty, replaced
/// from the left on.
pub fn replace_text(text: &str, pattern: &str, with: &str) -> (r: String)
    requires
        pattern@.len() > 0,
    ensures
        r@ == replaced(text@, pattern@, with@),
{
    let n: usize = text.unicode_len();
    let m: usize = pattern.unicode_len();
    let mut out: String = String::new();
    let mut i: usize = 0;
    assert(text@.skip(0) =~= text@);
    assert(out@ + replaced(text@.skip(0), pattern@, with@) =~= replaced(text@, pattern@, with@));
    while i < n
        invariant
            i <= n,
            n == text@.len(),
            m == pattern@.len(),
            m > 0,
            out@ + replaced(text@.skip(i as int), pattern@, with@) == replaced(
                text@,
                pattern@,
                with@,
            ),
        decreases n - i,
    {
        let ghost before = out@;
        let ghost rest = text@.skip(i as int);
        if m <= n - i && same_text(text.substring_char(i, i + m), pattern) {
            out.append(with);
            proof {
                assert(rest.take(m as int) =~= text@.subrange(i as int, i + m));
                assert(rest.skip(m as int) =~= text@.skip(i + m));
                assert(before + replaced(rest, pattern@, with@) =~= out@ + replaced(
                    text@.skip(i + m),
                    pattern@,
                    with@,
                ));
            }
            i = i + m;
        } else {
            out.append(text.substring_char(i, i + 1));
            proof {
                if m <= n - i {
                    assert(rest.take(m as int) =~= text@.subrange(i as int, i + m));
                }
                assert(rest.skip(1) =~= text@.skip(i + 1));
                assert(rest =~= seq![rest[0]] + rest.skip(1));
                assert(before + replaced(rest, pattern@, with@) =~= out@ + replaced(
                    text@.skip(i + 1),
                    pattern@,
                    with@,
                ));
            }
            i = i + 1;
        }
    }
    assert(out@ =~= out@ + replaced(text@.skip(i as int), pattern@, with@));
    out
}

/// The path of a file that is derived from a safetensors file: `ending` takes
/// the place of `.safetensors`.
pub fn derived_path(input_path: &str, ending: &str) -> (r: String)
    ensures
        r@ == replaced(input_path@, ".safetensors"@, ending@),
        forall|stem: Seq<char>| #[trigger]
            (stem + ".safetensors"@) == input_path@ && (forall|j: int|
                0 <= j < stem.len() ==> #[trigger] input_path@.subrange(j, j + 12)
                    != ".safetensors"@) ==> r@ == stem + ending@,
{
    proof {
        reveal_strlit(".safetensors");
        assert forall|stem: Seq<char>| #[trigger]
            (stem + ".safetensors"@) == input_path@ && (forall|j: int|
                0 <= j < stem.len() ==> #[trigger] input_path@.subrange(j, j + 12)
                    != ".safetensors"@) implies replaced(input_path@, ".safetensors"@, ending@)
            == stem + ending@ by {
            let n = stem.len() as int;
            assert(input_path@.subrange(n, n + 12) =~= ".safetensors"@);
            first_occurrence_is_replaced(input_path@, ".safetensors"@, ending@, n);
            assert(input_path@.skip(n + 12) =~= Seq::empty());
            assert(input_path@.take(n) =~= stem);
            assert(stem + ending@ + Seq::<char>::empty() =~= stem + ending@);
        }
    }
    replace_text(input_path, ".safetensors", ending)
}

} // verus!
