//! Rendering a parse error against its source: the failing character is
//! quoted, and marked in red when the process writes color.

use vstd::prelude::*;
use vstd::string::StrSliceExecFns;
use colored::Colorize;

verus! {

/// `s` wrapped in the ANSI sequences that start and reset red
/// foreground text, as the `colored` crate writes them.
pub open spec fn red_wrapped(s: Seq<char>) -> Seq<char> {
    ("\u{1b}[31m")@ + s + ("\u{1b}[0m")@
}

/// The source with the character at `pos` replaced by `mid` between two
/// quote characters.
pub open spec fn marked_source(src: Seq<char>, pos: int, mid: Seq<char>) -> Seq<char> {
    src.subrange(0, pos) + ("'")@ + mid + ("'")@ + src.subrange(pos + 1, src.len() as int)
}

/// Relies on `colored::Colorize::red` and the display of the colored
/// string it returns: the text comes back wrapped in the red and reset
/// ANSI sequences, or unchanged when coloring is disabled for the
/// process. (A single character cannot contain the reset sequence, so
/// no inner escaping takes place.)
#[verifier::external_body]
fn paint_red(s: &str) -> (r: String)
    requires
        s@.len() == 1,
    ensures
        r@ == s@ || r@ == red_wrapped(s@),
{
    s.red().to_string()
}

/// The source text with the character at `error_pos` (a character
/// offset) singled out: quoted, and wrapped in red when the process
/// writes color.
pub fn format_error_source(source: &str, error_pos: usize) -> (r: String)
    requires
        error_pos < source@.len(),
    ensures
        r@ == marked_source(source@, error_pos as int, seq![source@[error_pos as int]]) || r@
            == marked_source(
            source@,
            error_pos as int,
            red_wrapped(seq![source@[error_pos as int]]),
        ),
{
    let len = source.unicode_len();
    let mut r = String::new();
    let prefix = source.substring_char(0, error_pos);
    r.append(prefix);
    r.append("'");
    let mid = source.substring_char(error_pos, error_pos + 1);
    let painted = paint_red(mid);
    r.append(painted.as_str());
    r.append("'");
    let suffix = source.substring_char(error_pos + 1, len);
    r.append(suffix);
    proof {
        let c = seq![source@[error_pos as int]];
        assert(mid@ =~= c);
        if painted@ == mid@ {
            assert(r@ =~= marked_source(source@, error_pos as int, c));
        } else {
            assert(r@ =~= marked_source(source@, error_pos as int, red_wrapped(c)));
        }
    }
    r
}

} // verus!
