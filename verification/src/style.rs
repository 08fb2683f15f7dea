use vstd::prelude::*;

verus! {

/// The ANSI escape character that opens every styling marker.
pub open spec fn esc() -> char {
    '\u{1b}'
}

/// The terminal marker that opens bold green styling.
pub open spec fn bold_green_marker() -> Seq<char> {
    seq![esc(), '[', '1', ';', '3', '2', 'm']
}

/// The terminal marker that opens plain green styling.
pub open spec fn green_marker() -> Seq<char> {
    seq![esc(), '[', '3', '2', 'm']
}

/// The terminal marker that resets styling.
pub open spec fn reset_marker() -> Seq<char> {
    seq![esc(), '[', '0', 'm']
}

/// A token as it appears in the report: wrapped in green styling markers
/// when color is on, the bare text when color is off. The text between
/// the markers is never altered.
pub open spec fn styled(s: Seq<char>, bold: bool, color: bool) -> Seq<char> {
    if color {
        (if bold {
            bold_green_marker()
        } else {
            green_marker()
        }) + s + reset_marker()
    } else {
        s
    }
}

/// Relies on ansi_term: `Colour::Green.bold().paint(s)` displays as the
/// bold-green prefix `ESC [ 1 ; 3 2 m`, then `s` unchanged, then the
/// reset suffix `ESC [ 0 m`.
#[verifier::external_body]
fn paint_bold_green(s: &str) -> (r: String)
    ensures
        r@ == bold_green_marker() + s@ + reset_marker(),
{
    ansi_term::Colour::Green.bold().paint(s).to_string()
}

/// Relies on ansi_term: `Colour::Green.paint(s)` displays as the green
/// prefix `ESC [ 3 2 m`, then `s` unchanged, then the reset suffix
/// `ESC [ 0 m`.
#[verifier::external_body]
fn paint_green(s: &str) -> (r: String)
    ensures
        r@ == green_marker() + s@ + reset_marker(),
{
    ansi_term::Colour::Green.paint(s).to_string()
}

/// Renders one token of the report, honouring the color switch.
pub fn style_token(s: &str, bold: bool, color: bool) -> (r: String)
    ensures
        r@ == styled(s@, bold, color),
{
    if color {
        if bold {
            paint_bold_green(s)
        } else {
            paint_green(s)
        }
    } else {
        s.to_owned()
    }
}

/// Text free of the escape character, so styling markers cannot hide in it.
pub open spec fn esc_free(s: Seq<char>) -> bool {
    forall|i: int| 0 <= i < s.len() ==> s[i] != esc()
}

/// What remains of rendered text once styling markers are stripped:
/// each escape character and everything up to and including the `m`
/// that closes its marker is removed.
pub open spec fn strip_markers(s: Seq<char>) -> Seq<char>
    decreases s.len(),
{
    if s.len() == 0 {
        Seq::<char>::empty()
    } else if s[0] == esc() {
        strip_inside_marker(s.drop_first())
    } else {
        seq![s[0]] + strip_markers(s.drop_first())
    }
}

/// Discards characters of an open styling marker up to and including
/// the closing `m`, then strips the rest.
pub open spec fn strip_inside_marker(s: Seq<char>) -> Seq<char>
    decreases s.len(),
{
    if s.len() == 0 {
        Seq::<char>::empty()
    } else if s[0] == 'm' {
        strip_markers(s.drop_first())
    } else {
        strip_inside_marker(s.drop_first())
    }
}

/// Stripping walks over escape-free text unchanged.
pub proof fn lemma_strip_clean_append(a: Seq<char>, b: Seq<char>)
    requires
        esc_free(a),
    ensures
        strip_markers(a + b) == a + strip_markers(b),
    decreases a.len(),
{
    if a.len() == 0 {
        assert(a + b =~= b);
        assert(a + strip_markers(b) =~= strip_markers(b));
    } else {
        assert((a + b)[0] == a[0]);
        assert((a + b).drop_first() =~= a.drop_first() + b);
        lemma_strip_clean_append(a.drop_first(), b);
        assert(seq![a[0]] + (a.drop_first() + strip_markers(b)) =~= a + strip_markers(b));
    }
}

proof fn lemma_strip_marker_tail(tail: Seq<char>, b: Seq<char>)
    requires
        tail.len() > 0,
        tail.last() == 'm',
        forall|i: int| 0 <= i < tail.len() - 1 ==> tail[i] != 'm',
    ensures
        strip_inside_marker(tail + b) == strip_markers(b),
    decreases tail.len(),
{
    let t = tail + b;
    assert(t[0] == tail[0]);
    if tail.len() == 1 {
        assert(tail[0] == 'm');
        assert(t.drop_first() =~= b);
    } else {
        assert(tail[0] != 'm');
        assert(t.drop_first() =~= tail.drop_first() + b);
        assert(tail.drop_first().last() == 'm');
        lemma_strip_marker_tail(tail.drop_first(), b);
    }
}

/// Stripping removes a whole styling marker from the front.
pub proof fn lemma_strip_marker(mk: Seq<char>, b: Seq<char>)
    requires
        mk == bold_green_marker() || mk == green_marker() || mk == reset_marker(),
    ensures
        strip_markers(mk + b) == strip_markers(b),
{
    let t = mk + b;
    assert(t[0] == mk[0]);
    assert(mk[0] == esc());
    assert(t.drop_first() =~= mk.drop_first() + b);
    lemma_strip_marker_tail(mk.drop_first(), b);
}

/// Stripping recovers the bare token from a styled one, and walks on.
pub proof fn lemma_strip_styled(s: Seq<char>, bold: bool, rest: Seq<char>)
    requires
        esc_free(s),
    ensures
        strip_markers(styled(s, bold, true) + rest) == s + strip_markers(rest),
{
    let mk = if bold {
        bold_green_marker()
    } else {
        green_marker()
    };
    assert(styled(s, bold, true) + rest =~= mk + (s + (reset_marker() + rest)));
    lemma_strip_marker(mk, s + (reset_marker() + rest));
    lemma_strip_clean_append(s, reset_marker() + rest);
    lemma_strip_marker(reset_marker(), rest);
}

} // verus!
