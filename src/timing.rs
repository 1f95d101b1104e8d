use vstd::prelude::*;

verus! {

/// The ASCII code of a decimal digit.
pub open spec fn digit(d: nat) -> u8 {
    (48 + d) as u8
}

/// The decimal digits of `n`, most significant first, without leading zeros.
pub open spec fn decimal(n: nat) -> Seq<u8>
    decreases n,
{
    if n < 10 {
        seq![digit(n)]
    } else {
        decimal(n / 10) + seq![digit(n % 10)]
    }
}

/// How a duration of `millis` milliseconds reads: `m:ss.mmm` from one minute
/// on, `s.mmm` below.
pub open spec fn duration_text(millis: nat) -> Seq<u8> {
    let secs = millis / 1000;
    let ms = millis % 1000;
    let minutes = secs / 60;
    let s = secs % 60;
    let frac = seq![46u8, digit(ms / 100), digit(ms / 10 % 10), digit(ms % 10)];
    if minutes > 0 {
        decimal(minutes) + seq![58u8, digit(s / 10), digit(s % 10)] + frac
    } else {
        decimal(s) + frac
    }
}

pub open spec fn ascii_chars(b: Seq<u8>) -> Seq<char> {
    b.map_values(|x: u8| x as char)
}

/// Relies on `String::from_utf8`: bytes below 128 are valid UTF-8, one
/// character per byte.
#[verifier::external_body]
fn ascii_string(bytes: Vec<u8>) -> (r: String)
    requires
        forall|i: int| 0 <= i < bytes@.len() ==> #[trigger] bytes@[i] < 128,
    ensures
        r@ == ascii_chars(bytes@),
{
    match String::from_utf8(bytes) {
        Ok(s) => s,
        Err(_) => String::new(),
    }
}

fn push_decimal(out: &mut Vec<u8>, n: u64)
    ensures
        final(out)@ == old(out)@ + decimal(n as nat),
    decreases n,
{
    if n >= 10 {
        push_decimal(out, n / 10);
    }
    out.push(48 + (n % 10) as u8);
    proof {
        if n >= 10 {
            assert(final(out)@ =~= old(out)@ + decimal(n as nat));
        } else {
            assert(final(out)@ =~= old(out)@ + decimal(n as nat));
        }
    }
}

proof fn lemma_decimal_ascii(n: nat)
    ensures
        forall|i: int| 0 <= i < decimal(n).len() ==> #[trigger] decimal(n)[i] < 128,
    decreases n,
{
    if n >= 10 {
        lemma_decimal_ascii(n / 10);
        let d = decimal(n);
        let h = decimal(n / 10);
        assert forall|i: int| 0 <= i < d.len() implies #[trigger] d[i] < 128 by {
            if i < h.len() {
                assert(d[i] == h[i]);
            }
        }
    }
}

/// Text of a duration given in milliseconds: `m:ss.mmm` from one minute on,
/// `s.mmm` below.
pub fn format_duration(millis: u64) -> (r: String)
    ensures
        r@ == ascii_chars(duration_text(millis as nat)),
{
    let secs = millis / 1000;
    let ms = millis % 1000;
    let minutes = secs / 60;
    let s = secs % 60;
    let mut out: Vec<u8> = Vec::new();
    if minutes > 0 {
        push_decimal(&mut out, minutes);
        out.push(58);
        out.push(48 + (s / 10) as u8);
        out.push(48 + (s % 10) as u8);
    } else {
        push_decimal(&mut out, s);
    }
    out.push(46);
    out.push(48 + (ms / 100) as u8);
    out.push(48 + (ms / 10 % 10) as u8);
    out.push(48 + (ms % 10) as u8);
    proof {
        assert(out@ =~= duration_text(millis as nat));
        lemma_decimal_ascii(minutes as nat);
        lemma_decimal_ascii(s as nat);
        let t = duration_text(millis as nat);
        assert forall|i: int| 0 <= i < t.len() implies #[trigger] t[i] < 128 by {
            if minutes > 0 {
                let d = decimal(minutes as nat);
                if i < d.len() {
                    assert(t[i] == d[i]);
                }
            } else {
                let d = decimal(s as nat);
                if i < d.len() {
                    assert(t[i] == d[i]);
                }
            }
        }
    }
    ascii_string(out)
}

} // verus!
