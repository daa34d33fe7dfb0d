//! The ASCII PPM ("P3") encoding of a canvas.
//!
//! The document is a header (`P3`, the canvas's height and width, and the maximum
//! channel value `255`, each on a line of its own) followed by the pixel body.
//! The body is laid out in scanlines of `height` consecutive pixels of the buffer,
//! `width` of them, so that the header's first number is the length of a scanline
//! and its second the number of scanlines. Every channel becomes a token: its 8-bit
//! value in decimal and one space. Tokens are laid out on lines of at most
//! [`LINE_LIMIT`] characters, a scanline always starts on a fresh line, trailing
//! whitespace is trimmed from the body and one line break ends the document.

use vstd::prelude::*;
use vstd::string::StringExecFns;

use crate::canvas::Canvas;
use crate::color::{rgb8_of, Color};

verus! {

/// The longest line, in characters, that legacy PPM readers accept.
pub const LINE_LIMIT: usize = 70;

/// The character of a decimal digit.
pub open spec fn digit_char(d: int) -> char {
    if d == 0 {
        '0'
    } else if d == 1 {
        '1'
    } else if d == 2 {
        '2'
    } else if d == 3 {
        '3'
    } else if d == 4 {
        '4'
    } else if d == 5 {
        '5'
    } else if d == 6 {
        '6'
    } else if d == 7 {
        '7'
    } else if d == 8 {
        '8'
    } else {
        '9'
    }
}

/// The decimal notation of `n`, without leading zeros.
pub open spec fn decimal(n: nat) -> Seq<char>
    decreases n,
{
    if n < 10 {
        seq![digit_char(n as int)]
    } else {
        decimal(n / 10).push(digit_char((n % 10) as int))
    }
}

/// The token of one channel: its value in decimal, then one space.
pub open spec fn token(v: u8) -> Seq<char> {
    decimal(v as nat).push(' ')
}

/// The tokens of one pixel, red, green and blue.
pub open spec fn pixel_tokens(c: Color<i64>) -> Seq<Seq<char>> {
    let q = rgb8_of(c);
    seq![token(q.r), token(q.g), token(q.b)]
}

/// The tokens of a run of pixels, in order.
pub open spec fn tokens_of(pixels: Seq<Color<i64>>) -> Seq<Seq<char>>
    decreases pixels.len(),
{
    if pixels.len() == 0 {
        seq![]
    } else {
        tokens_of(pixels.drop_last()) + pixel_tokens(pixels.last())
    }
}

/// Lays tokens out on lines: the finished lines and the line being filled.
///
/// A token goes on the current line unless that would make the line longer than
/// [`LINE_LIMIT`]; then the current line is finished and the token starts a new one.
pub open spec fn wrap(tokens: Seq<Seq<char>>) -> (Seq<Seq<char>>, Seq<char>)
    decreases tokens.len(),
{
    if tokens.len() == 0 {
        (seq![], seq![])
    } else {
        let (done, cur) = wrap(tokens.drop_last());
        let t = tokens.last();
        if cur.len() + t.len() > LINE_LIMIT {
            (done.push(cur), t)
        } else {
            (done, cur + t)
        }
    }
}

/// All the lines that a run of tokens is laid out on.
pub open spec fn wrapped_lines(tokens: Seq<Seq<char>>) -> Seq<Seq<char>> {
    wrap(tokens).0.push(wrap(tokens).1)
}

/// Lines joined with a line break between each two.
pub open spec fn join_lines(lines: Seq<Seq<char>>) -> Seq<char>
    decreases lines.len(),
{
    if lines.len() == 0 {
        seq![]
    } else if lines.len() == 1 {
        lines[0]
    } else {
        join_lines(lines.drop_last()) + seq!['\n'] + lines.last()
    }
}

/// The text of a run of tokens once laid out on lines.
pub open spec fn wrapped_text(tokens: Seq<Seq<char>>) -> Seq<char> {
    join_lines(wrapped_lines(tokens))
}

/// The number of scanlines of the body.
pub open spec fn scanline_count(c: &Canvas<i64>) -> nat {
    if c.height == 0 {
        0
    } else {
        c.width as nat
    }
}

/// The pixels of scanline `k`: `height` consecutive pixels of the buffer.
pub open spec fn scanline(c: &Canvas<i64>, k: int) -> Seq<Color<i64>> {
    c.pixels@.subrange(k * c.height, (k + 1) * c.height)
}

/// The text of scanline `k`, before the body is trimmed.
pub open spec fn scanline_text(c: &Canvas<i64>, k: int) -> Seq<char> {
    wrapped_text(tokens_of(scanline(c, k)))
}

/// The first `n` scanlines, each followed by a line break.
pub open spec fn raw_body(c: &Canvas<i64>, n: nat) -> Seq<char>
    decreases n,
{
    if n == 0 {
        seq![]
    } else {
        raw_body(c, (n - 1) as nat) + scanline_text(c, n - 1) + seq!['\n']
    }
}

/// Whitespace, as far as trimming the body goes.
pub open spec fn is_blank(ch: char) -> bool {
    ch == ' ' || ch == '\n' || ch == '\t' || ch == '\r'
}

/// `s` without its trailing whitespace.
pub open spec fn trim_end(s: Seq<char>) -> Seq<char>
    decreases s.len(),
{
    if s.len() > 0 && is_blank(s.last()) {
        trim_end(s.drop_last())
    } else {
        s
    }
}

/// The header: magic number, height and width, maximum channel value.
pub open spec fn header(c: &Canvas<i64>) -> Seq<char> {
    seq!['P', '3', '\n'] + decimal(c.height as nat) + seq![' '] + decimal(c.width as nat) + seq![
        '\n',
        '2',
        '5',
        '5',
        '\n',
    ]
}

/// The body: the scanlines with the trailing whitespace trimmed.
pub open spec fn body(c: &Canvas<i64>) -> Seq<char> {
    trim_end(raw_body(c, scanline_count(c)))
}

/// The whole PPM document of a canvas.
pub open spec fn ppm_text(c: &Canvas<i64>) -> Seq<char> {
    header(c) + body(c) + seq!['\n']
}

/// Every character of `s` is whitespace.
pub open spec fn all_blank(s: Seq<char>) -> bool {
    forall|i: int| 0 <= i < s.len() ==> is_blank(#[trigger] s[i])
}

/// `s` is empty or ends with a character that is not whitespace.
pub open spec fn ends_solid(s: Seq<char>) -> bool {
    s.len() == 0 || !is_blank(s.last())
}

proof fn lemma_decimal_shape(n: nat)
    ensures
        decimal(n).len() > 0,
        !is_blank(decimal(n).last()),
        n < 10 ==> decimal(n).len() == 1,
        10 <= n < 100 ==> decimal(n).len() == 2,
        100 <= n < 1000 ==> decimal(n).len() == 3,
    decreases n,
{
    if n >= 10 {
        lemma_decimal_shape(n / 10);
    }
}

proof fn lemma_trim_blank_tail(s: Seq<char>, p: Seq<char>)
    requires
        ends_solid(s),
        all_blank(p),
    ensures
        trim_end(s + p) == s,
    decreases p.len(),
{
    if p.len() == 0 {
        assert(s + p =~= s);
    } else {
        assert((s + p).drop_last() =~= s + p.drop_last());
        assert((s + p).last() == p.last());
        lemma_trim_blank_tail(s, p.drop_last());
    }
}

proof fn lemma_wrap_step(ts: Seq<Seq<char>>, t: Seq<char>)
    ensures
        wrap(ts.push(t)) == (if wrap(ts).1.len() + t.len() > LINE_LIMIT {
            (wrap(ts).0.push(wrap(ts).1), t)
        } else {
            (wrap(ts).0, wrap(ts).1 + t)
        }),
        wrapped_text(ts.push(t)) == (if wrap(ts).1.len() + t.len() > LINE_LIMIT {
            wrapped_text(ts) + seq!['\n'] + t
        } else {
            wrapped_text(ts) + t
        }),
{
    assert(ts.push(t).drop_last() =~= ts);
    let (done, cur) = wrap(ts);
    if cur.len() + t.len() > LINE_LIMIT {
        let lines = done.push(cur).push(t);
        assert(lines.drop_last() =~= done.push(cur));
    } else {
        let lines = done.push(cur + t);
        if done.len() > 0 {
            assert(lines.drop_last() =~= done);
            assert(done.push(cur).drop_last() =~= done);
            assert(join_lines(done) + seq!['\n'] + (cur + t) =~= join_lines(done) + seq!['\n'] + cur
                + t);
        }
    }
}

proof fn lemma_tokens_step(line: Seq<Color<i64>>, j: int)
    requires
        0 <= j < line.len(),
    ensures
        tokens_of(line.take(j + 1)) == tokens_of(line.take(j)).push(
            token(rgb8_of(line[j]).r),
        ).push(token(rgb8_of(line[j]).g)).push(token(rgb8_of(line[j]).b)),
{
    assert(line.take(j + 1).drop_last() =~= line.take(j));
    let q = rgb8_of(line[j]);
    assert(tokens_of(line.take(j)) + pixel_tokens(line[j]) =~= tokens_of(line.take(j)).push(
        token(q.r),
    ).push(token(q.g)).push(token(q.b)));
}

/// `s` holds no line break between positions `i` (included) and `j` (excluded).
pub open spec fn unbroken(s: Seq<char>, i: int, j: int) -> bool {
    forall|k: int| i <= k < j ==> s[k] != '\n'
}

/// No stretch of `s` without a line break is longer than [`LINE_LIMIT`] characters:
/// split on line breaks, every piece of `s` has at most that many characters.
pub open spec fn lines_within_limit(s: Seq<char>) -> bool {
    forall|i: int, j: int|
        0 <= i <= j <= s.len() && #[trigger] unbroken(s, i, j) ==> j - i <= LINE_LIMIT
}

/// `s` holds no line break and fits on one line.
pub open spec fn fits_one_line(s: Seq<char>) -> bool {
    s.len() <= LINE_LIMIT && unbroken(s, 0, s.len() as int)
}

/// `s` is empty or ends with a line break.
pub open spec fn ends_line(s: Seq<char>) -> bool {
    s.len() == 0 || s.last() == '\n'
}

proof fn lemma_one_line(s: Seq<char>)
    requires
        fits_one_line(s),
    ensures
        lines_within_limit(s),
{
}

proof fn lemma_within_limit_concat(a: Seq<char>, b: Seq<char>)
    requires
        lines_within_limit(a),
        lines_within_limit(b),
        ends_line(a),
    ensures
        lines_within_limit(a + b),
{
    let s = a + b;
    assert forall|i: int, j: int|
        0 <= i <= j <= s.len() && #[trigger] unbroken(s, i, j) implies j - i <= LINE_LIMIT by {
        if j <= a.len() {
            assert(unbroken(a, i, j)) by {
                assert forall|k: int| i <= k < j implies a[k] != '\n' by {
                    assert(s[k] == a[k]);
                }
            }
        } else if i >= a.len() {
            assert(unbroken(b, i - a.len(), j - a.len())) by {
                assert forall|k: int| i - a.len() <= k < j - a.len() implies b[k] != '\n' by {
                    assert(s[k + a.len()] == b[k]);
                }
            }
        } else {
            assert(s[a.len() - 1] == '\n');
        }
    }
}

proof fn lemma_within_limit_newline(a: Seq<char>)
    requires
        lines_within_limit(a),
    ensures
        lines_within_limit(a.push('\n')),
{
    let s = a.push('\n');
    assert forall|i: int, j: int|
        0 <= i <= j <= s.len() && #[trigger] unbroken(s, i, j) implies j - i <= LINE_LIMIT by {
        if j == s.len() && i < j {
            assert(s[a.len() as int] == '\n');
        } else {
            assert(unbroken(a, i, j)) by {
                assert forall|k: int| i <= k < j implies a[k] != '\n' by {
                    assert(s[k] == a[k]);
                }
            }
        }
    }
}

proof fn lemma_within_limit_prefix(a: Seq<char>, n: int)
    requires
        lines_within_limit(a),
        0 <= n <= a.len(),
    ensures
        lines_within_limit(a.take(n)),
{
    let s = a.take(n);
    assert forall|i: int, j: int|
        0 <= i <= j <= s.len() && #[trigger] unbroken(s, i, j) implies j - i <= LINE_LIMIT by {
        assert(unbroken(a, i, j)) by {
            assert forall|k: int| i <= k < j implies a[k] != '\n' by {
                assert(s[k] == a[k]);
            }
        }
    }
}

proof fn lemma_trim_is_prefix(s: Seq<char>)
    ensures
        trim_end(s).len() <= s.len(),
        trim_end(s) == s.take(trim_end(s).len() as int),
    decreases s.len(),
{
    if s.len() > 0 && is_blank(s.last()) {
        lemma_trim_is_prefix(s.drop_last());
        assert(s.drop_last().take(trim_end(s).len() as int) =~= s.take(trim_end(s).len() as int));
    } else {
        assert(s.take(s.len() as int) =~= s);
    }
}

proof fn lemma_join_within_limit(lines: Seq<Seq<char>>)
    requires
        forall|i: int| 0 <= i < lines.len() ==> fits_one_line(#[trigger] lines[i]),
    ensures
        lines_within_limit(join_lines(lines)),
    decreases lines.len(),
{
    if lines.len() == 1 {
        lemma_one_line(lines[0]);
    } else if lines.len() > 1 {
        let front = lines.drop_last();
        lemma_join_within_limit(front);
        lemma_within_limit_newline(join_lines(front));
        lemma_one_line(lines.last());
        lemma_within_limit_concat(join_lines(front).push('\n'), lines.last());
        assert(join_lines(front) + seq!['\n'] + lines.last() =~= join_lines(front).push('\n')
            + lines.last());
    }
}

proof fn lemma_decimal_digits(n: nat)
    ensures
        forall|i: int| 0 <= i < decimal(n).len() ==> #[trigger] decimal(n)[i] != '\n',
    decreases n,
{
    if n >= 10 {
        lemma_decimal_digits(n / 10);
        let d = decimal(n / 10);
        assert forall|i: int| 0 <= i < decimal(n).len() implies #[trigger] decimal(n)[i] != '\n' by {
            if i < d.len() {
                assert(decimal(n)[i] == d[i]);
            }
        }
    }
}

proof fn lemma_token_fits(v: u8)
    ensures
        fits_one_line(token(v)),
        token(v).len() <= 4,
        token(v).len() >= 2,
        token(v).last() == ' ',
        !is_blank(token(v)[token(v).len() - 2]),
{
    lemma_decimal_shape(v as nat);
    lemma_decimal_digits(v as nat);
    let d = decimal(v as nat);
    assert forall|k: int| 0 <= k < token(v).len() implies token(v)[k] != '\n' by {
        if k < d.len() {
            assert(token(v)[k] == d[k]);
        }
    }
}

proof fn lemma_tokens_fit(pixels: Seq<Color<i64>>)
    ensures
        forall|i: int| 0 <= i < tokens_of(pixels).len() ==> fits_one_line(#[trigger] tokens_of(pixels)[i]),
        tokens_of(pixels).len() == 3 * pixels.len(),
    decreases pixels.len(),
{
    if pixels.len() > 0 {
        lemma_tokens_fit(pixels.drop_last());
        let q = rgb8_of(pixels.last());
        lemma_token_fits(q.r);
        lemma_token_fits(q.g);
        lemma_token_fits(q.b);
        let front = tokens_of(pixels.drop_last());
        assert forall|i: int| 0 <= i < tokens_of(pixels).len() implies fits_one_line(
            #[trigger] tokens_of(pixels)[i],
        ) by {
            if i < front.len() {
                assert(tokens_of(pixels)[i] == front[i]);
            }
        }
    }
}

proof fn lemma_wrap_fits(ts: Seq<Seq<char>>)
    requires
        forall|i: int| 0 <= i < ts.len() ==> fits_one_line(#[trigger] ts[i]),
    ensures
        forall|i: int| 0 <= i < wrapped_lines(ts).len() ==> fits_one_line(#[trigger] wrapped_lines(ts)[i]),
    decreases ts.len(),
{
    if ts.len() > 0 {
        let front = ts.drop_last();
        assert forall|i: int| 0 <= i < front.len() implies fits_one_line(#[trigger] front[i]) by {
            assert(front[i] == ts[i]);
        }
        lemma_wrap_fits(front);
        let (done, cur) = wrap(front);
        let t = ts.last();
        assert(fits_one_line(t)) by {
            assert(t == ts[ts.len() - 1]);
        }
        assert(wrapped_lines(front) == done.push(cur));
        assert(fits_one_line(cur)) by {
            assert(cur == wrapped_lines(front)[done.len() as int]);
        }
        if cur.len() + t.len() > LINE_LIMIT {
            assert(wrapped_lines(ts) =~= done.push(cur).push(t));
            assert forall|i: int| 0 <= i < wrapped_lines(ts).len() implies fits_one_line(
                #[trigger] wrapped_lines(ts)[i],
            ) by {
                if i < done.len() + 1 {
                    assert(wrapped_lines(ts)[i] == wrapped_lines(front)[i]);
                }
            }
        } else {
            assert(wrapped_lines(ts) =~= done.push(cur + t));
            assert(fits_one_line(cur + t)) by {
                assert forall|k: int| 0 <= k < (cur + t).len() implies (cur + t)[k] != '\n' by {
                    if k < cur.len() {
                        assert((cur + t)[k] == cur[k]);
                    } else {
                        assert((cur + t)[k] == t[k - cur.len()]);
                    }
                }
            }
            assert forall|i: int| 0 <= i < wrapped_lines(ts).len() implies fits_one_line(
                #[trigger] wrapped_lines(ts)[i],
            ) by {
                if i < done.len() {
                    assert(wrapped_lines(ts)[i] == wrapped_lines(front)[i]);
                }
            }
        }
    }
}

proof fn lemma_raw_body_within_limit(c: &Canvas<i64>, n: nat)
    ensures
        lines_within_limit(raw_body(c, n)),
        ends_line(raw_body(c, n)),
    decreases n,
{
    if n > 0 {
        let k = n - 1;
        lemma_raw_body_within_limit(c, k as nat);
        let ts = tokens_of(scanline(c, k));
        lemma_tokens_fit(scanline(c, k));
        lemma_wrap_fits(ts);
        lemma_join_within_limit(wrapped_lines(ts));
        lemma_within_limit_newline(scanline_text(c, k));
        lemma_within_limit_concat(raw_body(c, k as nat), scanline_text(c, k).push('\n'));
        assert(raw_body(c, n) =~= raw_body(c, k as nat) + scanline_text(c, k).push('\n'));
    }
}

/// Ten to the power `k`.
spec fn pow10(k: nat) -> nat
    decreases k,
{
    if k == 0 {
        1
    } else {
        10 * pow10((k - 1) as nat)
    }
}

proof fn lemma_decimal_len_bound(n: nat, k: nat)
    requires
        k >= 1,
        n < pow10(k),
    ensures
        decimal(n).len() <= k,
    decreases k,
{
    if n >= 10 {
        let p = pow10((k - 1) as nat);
        assert(pow10(k) == 10 * p);
        if k == 1 {
            assert(pow10(0) == 1);
        }
        assert(n / 10 < p) by (nonlinear_arith)
            requires
                n < 10 * p,
        ;
        lemma_decimal_len_bound(n / 10, (k - 1) as nat);
    }
}

proof fn lemma_header_within_limit(c: &Canvas<i64>)
    ensures
        lines_within_limit(header(c)),
        ends_line(header(c)),
{
    let h = decimal(c.height as nat);
    let w = decimal(c.width as nat);
    reveal_with_fuel(pow10, 21);
    assert(pow10(20) == 100000000000000000000);
    lemma_decimal_len_bound(c.height as nat, 20);
    lemma_decimal_len_bound(c.width as nat, 20);
    lemma_decimal_digits(c.height as nat);
    lemma_decimal_digits(c.width as nat);
    let magic = seq!['P', '3'];
    let sizes = h + seq![' '] + w;
    let depth = seq!['2', '5', '5'];
    assert(fits_one_line(sizes)) by {
        assert forall|k: int| 0 <= k < sizes.len() implies sizes[k] != '\n' by {
            if k < h.len() {
                assert(sizes[k] == h[k]);
            } else if k > h.len() {
                assert(sizes[k] == w[k - h.len() - 1]);
            }
        }
    }
    lemma_within_limit_newline(magic);
    lemma_within_limit_newline(sizes);
    lemma_within_limit_newline(depth);
    lemma_within_limit_concat(magic.push('\n'), sizes.push('\n'));
    lemma_within_limit_concat(magic.push('\n') + sizes.push('\n'), depth.push('\n'));
    assert(header(c) =~= magic.push('\n') + sizes.push('\n') + depth.push('\n'));
}

/// No line of the PPM document of a canvas, split on line breaks, is longer than
/// [`LINE_LIMIT`] characters.
pub proof fn lemma_ppm_lines_within_limit(c: &Canvas<i64>)
    ensures
        lines_within_limit(ppm_text(c)),
{
    let raw = raw_body(c, scanline_count(c));
    lemma_raw_body_within_limit(c, scanline_count(c));
    lemma_trim_is_prefix(raw);
    lemma_within_limit_prefix(raw, body(c).len() as int);
    lemma_header_within_limit(c);
    lemma_within_limit_concat(header(c), body(c));
    lemma_within_limit_newline(header(c) + body(c));
    assert(ppm_text(c) =~= (header(c) + body(c)).push('\n'));
}

/// Where scanline `k` begins in the document: after the header and the scanlines
/// before it.
pub open spec fn scanline_start(c: &Canvas<i64>, k: int) -> int {
    (header(c).len() + raw_body(c, k as nat).len()) as int
}

proof fn lemma_raw_body_prefix(c: &Canvas<i64>, m: nat, n: nat)
    requires
        m <= n,
    ensures
        raw_body(c, m).len() <= raw_body(c, n).len(),
        raw_body(c, n).take(raw_body(c, m).len() as int) == raw_body(c, m),
    decreases n,
{
    if m == n {
        assert(raw_body(c, n).take(raw_body(c, n).len() as int) =~= raw_body(c, n));
    } else {
        lemma_raw_body_prefix(c, m, (n - 1) as nat);
        let prev = raw_body(c, (n - 1) as nat);
        assert(raw_body(c, n).take(prev.len() as int) =~= prev);
        assert(raw_body(c, n).take(raw_body(c, m).len() as int) =~= prev.take(
            raw_body(c, m).len() as int,
        ));
    }
}

/// The text of a non-empty scanline is its trimmed text and one space.
proof fn lemma_scanline_text_shape(c: &Canvas<i64>, k: int)
    requires
        scanline(c, k).len() > 0,
    ensures
        scanline_text(c, k) == trim_end(scanline_text(c, k)).push(' '),
        trim_end(scanline_text(c, k)).len() > 0,
        ends_solid(trim_end(scanline_text(c, k))),
{
    let line = scanline(c, k);
    let ts = tokens_of(line);
    let q = rgb8_of(line.last());
    assert(ts == tokens_of(line.drop_last()).push(token(q.r)).push(token(q.g)).push(token(q.b)))
        by {
        assert(tokens_of(line.drop_last()) + pixel_tokens(line.last()) =~= tokens_of(
            line.drop_last(),
        ).push(token(q.r)).push(token(q.g)).push(token(q.b)));
    }
    let front = ts.drop_last();
    let t = token(q.b);
    assert(front.push(t) =~= ts);
    lemma_wrap_step(front, t);
    lemma_token_fits(q.b);
    let x = if wrap(front).1.len() + t.len() > LINE_LIMIT {
        wrapped_text(front) + seq!['\n']
    } else {
        wrapped_text(front)
    };
    assert(scanline_text(c, k) =~= x + t);
    let y = x + t.drop_last();
    assert(scanline_text(c, k) =~= y.push(' '));
    assert(y.last() == t[t.len() - 2]);
    assert(all_blank(seq![' ']));
    lemma_trim_blank_tail(y, seq![' ']);
    assert(y + seq![' '] =~= y.push(' '));
}

/// Every scanline of a canvas begins a line of its own, right after a line break,
/// and its text, its own pixels' tokens laid out on lines, is followed by a line
/// break before the next scanline begins. The last scanline's text has its
/// trailing whitespace trimmed and ends the document with one line break.
pub proof fn lemma_scanlines_on_own_lines(c: &Canvas<i64>, k: int)
    requires
        c.well_formed(),
        0 <= k < scanline_count(c),
    ensures
        scanline(c, k).len() == c.height,
        trim_end(scanline_text(c, k)).len() > 0,
        ppm_text(c)[scanline_start(c, k) - 1] == '\n',
        k + 1 < scanline_count(c) ==> ppm_text(c).subrange(
            scanline_start(c, k),
            scanline_start(c, k + 1),
        ) == scanline_text(c, k).push('\n'),
        k + 1 == scanline_count(c) ==> ppm_text(c).subrange(
            scanline_start(c, k),
            ppm_text(c).len() as int,
        ) == trim_end(scanline_text(c, k)).push('\n'),
{
    let n = scanline_count(c);
    let h = c.height as int;
    let w = c.width as int;
    assert(0 <= k * h && (k + 1) * h <= w * h && k * h + h == (k + 1) * h) by (nonlinear_arith)
        requires
            0 <= k < w,
            h > 0,
    ;
    assert(w * h == h * w) by (nonlinear_arith);
    assert(scanline(c, k).len() == h);
    let last = n - 1;
    assert(0 <= last * h && (last + 1) * h <= w * h && last * h + h == (last + 1) * h)
        by (nonlinear_arith)
        requires
            last == w - 1,
            w > 0,
            h > 0,
    ;
    lemma_scanline_text_shape(c, k);
    lemma_scanline_text_shape(c, last);
    let prev = raw_body(c, last as nat);
    let y = trim_end(scanline_text(c, last));
    let raw = raw_body(c, n);
    assert(raw =~= (prev + y) + seq![' ', '\n']);
    assert(all_blank(seq![' ', '\n']));
    lemma_trim_blank_tail(prev + y, seq![' ', '\n']);
    assert(body(c) == prev + y);
    let doc = ppm_text(c);
    let hd = header(c);
    assert(doc =~= hd + (prev + y) + seq!['\n']);
    lemma_header_within_limit(c);
    lemma_raw_body_prefix(c, k as nat, last as nat);
    let before = raw_body(c, k as nat);
    if k == 0 {
        assert(doc[hd.len() - 1] == hd.last());
    } else {
        lemma_raw_body_within_limit(c, k as nat);
        assert(before.len() > 0);
        assert(doc[scanline_start(c, k) - 1] == prev[before.len() - 1]);
        assert(prev[before.len() - 1] == before[before.len() - 1]);
    }
    if k + 1 < n {
        lemma_raw_body_prefix(c, (k + 1) as nat, last as nat);
        let upto = raw_body(c, (k + 1) as nat);
        assert(upto =~= before + scanline_text(c, k).push('\n'));
        assert(doc.subrange(scanline_start(c, k), scanline_start(c, k + 1)) =~= upto.subrange(
            before.len() as int,
            upto.len() as int,
        ));
        assert(upto.subrange(before.len() as int, upto.len() as int) =~= scanline_text(c, k).push(
            '\n',
        ));
    } else {
        assert(doc.subrange(scanline_start(c, k), doc.len() as int) =~= y.push('\n'));
    }
}

/// The one-character string of a decimal digit.
fn digit_str(d: usize) -> (s: &'static str)
    requires
        d < 10,
    ensures
        s@ == seq![digit_char(d as int)],
{
    proof {
        reveal_strlit("0");
        reveal_strlit("1");
        reveal_strlit("2");
        reveal_strlit("3");
        reveal_strlit("4");
        reveal_strlit("5");
        reveal_strlit("6");
        reveal_strlit("7");
        reveal_strlit("8");
        reveal_strlit("9");
    }
    match d {
        0 => "0",
        1 => "1",
        2 => "2",
        3 => "3",
        4 => "4",
        5 => "5",
        6 => "6",
        7 => "7",
        8 => "8",
        _ => "9",
    }
}

/// Appends the decimal notation of `n` to `out`.
fn push_decimal(out: &mut String, n: usize)
    ensures
        final(out)@ == old(out)@ + decimal(n as nat),
    decreases n,
{
    if n >= 10 {
        push_decimal(out, n / 10);
    }
    out.append(digit_str(n % 10));
    proof {
        if n >= 10 {
            assert(old(out)@ + decimal((n / 10) as nat) + seq![digit_char((n % 10) as int)]
                =~= old(out)@ + decimal(n as nat));
        } else {
            assert(old(out)@ + seq![digit_char((n % 10) as int)] =~= old(out)@ + decimal(
                n as nat,
            ));
        }
    }
}

/// The length of the token of `v`.
fn token_len(v: u8) -> (n: usize)
    ensures
        n == token(v).len(),
        n <= 4,
{
    proof {
        lemma_decimal_shape(v as nat);
    }
    if v >= 100 {
        4
    } else if v >= 10 {
        3
    } else {
        2
    }
}

/// Lays out the token of `v` after the tokens `ts`, which were laid out after
/// `before`.
///
/// The text is kept in two parts: `out`, which ends on a character that is not
/// whitespace, and `pending`, the whitespace that follows it and is written only
/// once more text comes after it. `cur_len` is the length of the current line.
fn emit_token(
    out: &mut String,
    pending: &mut String,
    cur_len: &mut usize,
    v: u8,
    Ghost(before): Ghost<Seq<char>>,
    Ghost(ts): Ghost<Seq<Seq<char>>>,
)
    requires
        *old(cur_len) <= LINE_LIMIT,
        *old(cur_len) == wrap(ts).1.len(),
        old(out)@ + old(pending)@ == before + wrapped_text(ts),
        ends_solid(old(out)@),
        all_blank(old(pending)@),
    ensures
        *final(cur_len) <= LINE_LIMIT,
        *final(cur_len) == wrap(ts.push(token(v))).1.len(),
        final(out)@ + final(pending)@ == before + wrapped_text(ts.push(token(v))),
        ends_solid(final(out)@),
        all_blank(final(pending)@),
{
    proof {
        lemma_wrap_step(ts, token(v));
    }
    let len = token_len(v);
    let wraps = *cur_len + len > LINE_LIMIT;
    if wraps {
        pending.append("\n");
        *cur_len = 0;
    }
    out.append(pending.as_str());
    push_decimal(out, v as usize);
    *pending = String::from_str(" ");
    *cur_len = *cur_len + len;
    proof {
        reveal_strlit("\n");
        reveal_strlit(" ");
        lemma_decimal_shape(v as nat);
        let d = decimal(v as nat);
        assert(final(out)@.last() == d.last());
        if wraps {
            assert(final(out)@ + final(pending)@ =~= before + wrapped_text(ts) + seq!['\n'] + token(v));
        } else {
            assert(final(out)@ + final(pending)@ =~= before + wrapped_text(ts) + token(v));
        }
    }
}

/// Lays out the three tokens of pixel `c` after the tokens `ts`, which were laid out
/// after `before`.
fn emit_pixel(
    c: Color<i64>,
    out: &mut String,
    pending: &mut String,
    cur_len: &mut usize,
    Ghost(before): Ghost<Seq<char>>,
    Ghost(ts): Ghost<Seq<Seq<char>>>,
)
    requires
        *old(cur_len) <= LINE_LIMIT,
        *old(cur_len) == wrap(ts).1.len(),
        old(out)@ + old(pending)@ == before + wrapped_text(ts),
        ends_solid(old(out)@),
        all_blank(old(pending)@),
    ensures
        *final(cur_len) <= LINE_LIMIT,
        *final(cur_len) == wrap(ts.push(token(rgb8_of(c).r)).push(token(rgb8_of(c).g)).push(
            token(rgb8_of(c).b),
        )).1.len(),
        final(out)@ + final(pending)@ == before + wrapped_text(
            ts.push(token(rgb8_of(c).r)).push(token(rgb8_of(c).g)).push(token(rgb8_of(c).b)),
        ),
        ends_solid(final(out)@),
        all_blank(final(pending)@),
{
    let q = c.as_rgb8();
    let ghost ts1 = ts.push(token(q.r));
    let ghost ts2 = ts1.push(token(q.g));
    emit_token(out, pending, cur_len, q.r, Ghost(before), Ghost(ts));
    emit_token(out, pending, cur_len, q.g, Ghost(before), Ghost(ts1));
    emit_token(out, pending, cur_len, q.b, Ghost(before), Ghost(ts2));
}

/// Lays out scanline `k` after what has been written so far, and ends its line.
fn emit_scanline(canvas: &Canvas<i64>, k: usize, out: &mut String, pending: &mut String)
    requires
        canvas.well_formed(),
        k < scanline_count(canvas),
        ends_solid(old(out)@),
        all_blank(old(pending)@),
    ensures
        ends_solid(final(out)@),
        all_blank(final(pending)@),
        final(out)@ + final(pending)@ == old(out)@ + old(pending)@ + scanline_text(canvas, k as int)
            + seq!['\n'],
{
    let h = canvas.height;
    let w = canvas.width;
    proof {
        assert((k + 1) * h <= w * h) by (nonlinear_arith)
            requires
                k < w,
        ;
        assert(w * h == h * w) by (nonlinear_arith);
        assert(k * h + h == (k + 1) * h) by (nonlinear_arith);
    }
    let start = k * h;
    let ghost line = scanline(canvas, k as int);
    let ghost before = out@ + pending@;
    let mut cur_len: usize = 0;
    let mut j: usize = 0;
    assert(line.take(0) =~= Seq::<Color<i64>>::empty());
    while j < h
        invariant
            canvas.well_formed(),
            h == canvas.height,
            start + h <= canvas.pixels@.len(),
            line == canvas.pixels@.subrange(start as int, start + h),
            j <= h,
            cur_len <= LINE_LIMIT,
            cur_len == wrap(tokens_of(line.take(j as int))).1.len(),
            out@ + pending@ == before + wrapped_text(tokens_of(line.take(j as int))),
            ends_solid(out@),
            all_blank(pending@),
        decreases h - j,
    {
        let c = canvas.pixels[start + j];
        proof {
            lemma_tokens_step(line, j as int);
        }
        emit_pixel(c, out, pending, &mut cur_len, Ghost(before), Ghost(tokens_of(line.take(j as int))));
        j = j + 1;
    }
    assert(line.take(h as int) =~= line);
    pending.append("\n");
    proof {
        reveal_strlit("\n");
        assert(out@ + pending@ =~= before + scanline_text(canvas, k as int) + seq!['\n']);
    }
}

/// The body of the document: all the scanlines, trailing whitespace trimmed.
fn encode_body(canvas: &Canvas<i64>) -> (s: String)
    requires
        canvas.well_formed(),
    ensures
        s@ == body(canvas),
{
    let count: usize = if canvas.height == 0 {
        0
    } else {
        canvas.width
    };
    let mut out = String::new();
    let mut pending = String::new();
    let mut k: usize = 0;
    while k < count
        invariant
            canvas.well_formed(),
            count == scanline_count(canvas),
            k <= count,
            out@ + pending@ == raw_body(canvas, k as nat),
            ends_solid(out@),
            all_blank(pending@),
        decreases count - k,
    {
        emit_scanline(canvas, k, &mut out, &mut pending);
        k = k + 1;
    }
    proof {
        lemma_trim_blank_tail(out@, pending@);
    }
    out
}

/// The PPM ("P3") document of a canvas whose channels are on the 0 to 255 scale.
///
/// Channels are clamped into `0..=255` on the way; see [`Color::as_rgb8`].
pub fn ppm_from_canvas(canvas: &Canvas<i64>) -> (s: String)
    requires
        canvas.well_formed(),
    ensures
        s@ == ppm_text(canvas),
{
    let mut out = String::from_str("P3\n");
    push_decimal(&mut out, canvas.height);
    out.append(" ");
    push_decimal(&mut out, canvas.width);
    out.append("\n255\n");
    let body = encode_body(canvas);
    out.append(body.as_str());
    out.append("\n");
    proof {
        reveal_strlit("P3\n");
        reveal_strlit(" ");
        reveal_strlit("\n255\n");
        reveal_strlit("\n");
        assert(out@ =~= ppm_text(canvas));
    }
    out
}

} // verus!
