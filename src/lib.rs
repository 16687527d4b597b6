//! Generators of test-fixture data: text and byte blobs of an exact length,
//! filled by repeating a template or drawn from a small byte generator.
use vstd::arithmetic::div_mod::{lemma_fundamental_div_mod, lemma_mod_multiples_vanish, lemma_small_mod};
use vstd::prelude::*;

pub mod rng;

pub use rng::Rng;
use rng::{advance, output_stream};
use vstd::string::StringSliceAdditionalSpecFns;
use vstd::utf8::{
    decode_utf8, decode_utf8_encode_utf8, encode_utf8, is_ascii_chars, is_ascii_chars_encode_utf8,
    partial_valid_utf8_extend_ascii_block, valid_utf8,
};

verus! {

/// Why a filler refused its arguments.
#[derive(Debug, Clone, Copy, PartialEq, Eq, Structural)]
pub enum FillError {
    /// The template to repeat is empty.
    InvalidTemplate,
}

/// The first `n` bytes of `t` repeated end to end.
pub open spec fn cycle(t: Seq<u8>, n: nat) -> Seq<u8>
    recommends
        t.len() > 0,
{
    Seq::new(n, |i: int| t[i % (t.len() as int)])
}

/// `t` written `k` times, end to end.
pub open spec fn repeat(t: Seq<u8>, k: nat) -> Seq<u8>
    decreases k,
{
    if k == 0 {
        Seq::empty()
    } else {
        repeat(t, (k - 1) as nat) + t
    }
}

proof fn lemma_repeat_index(t: Seq<u8>, k: nat)
    requires
        t.len() > 0,
    ensures
        repeat(t, k).len() == k * t.len(),
        forall|i: int| 0 <= i < k * t.len() ==> #[trigger] repeat(t, k)[i] == t[i % (t.len() as int)],
    decreases k,
{
    if k > 0 {
        let k1 = (k - 1) as nat;
        let m = t.len() as int;
        lemma_repeat_index(t, k1);
        assert(k1 * m + m == k * m) by (nonlinear_arith)
            requires
                k1 + 1 == k,
        ;
        assert forall|i: int| 0 <= i < k * m implies #[trigger] repeat(t, k)[i] == t[i % m] by {
            if i < k1 * m {
                assert(repeat(t, k)[i] == repeat(t, k1)[i]);
            } else {
                let j = i - k1 * m;
                lemma_mod_multiples_vanish(k1 as int, j, m);
                lemma_small_mod(j as nat, m as nat);
                assert(m * k1 == k1 * m) by (nonlinear_arith);
            }
        }
    } else {
        assert(k * t.len() == 0) by (nonlinear_arith)
            requires
                k == 0,
        ;
    }
}

/// A blob filled from a template is a prefix of the template repeated end to
/// end, and one at least as long as the template starts with the whole template.
pub proof fn lemma_blob_repeats_template(t: Seq<u8>, n: nat)
    requires
        t.len() > 0,
    ensures
        repeat(t, n / t.len() + 1).len() >= n,
        cycle(t, n) == repeat(t, n / t.len() + 1).take(n as int),
        n >= t.len() ==> cycle(t, n).take(t.len() as int) == t,
{
    let m = t.len() as int;
    let k = (n / t.len() + 1) as nat;
    lemma_repeat_index(t, k);
    lemma_fundamental_div_mod(n as int, m);
    assert(k * m == m * ((n as int) / m) + m) by (nonlinear_arith)
        requires
            k == (n as int) / m + 1,
    ;
    assert(cycle(t, n) =~= repeat(t, k).take(n as int));
    if n >= t.len() {
        assert forall|i: int| 0 <= i < m implies #[trigger] cycle(t, n)[i] == t[i] by {
            lemma_small_mod(i as nat, m as nat);
        }
        assert(cycle(t, n).take(m) =~= t);
    }
}

/// Without numbers, text is its template's bytes repeated: the same bytes that
/// `get_blob` gives for them.
pub proof fn lemma_plain_text_is_cycle(t: Seq<u8>, n: nat)
    requires
        t.len() > 0,
    ensures
        text_bytes(t, false, n) == cycle(t, n),
{
    lemma_pieces_plain(t, n + 1);
    lemma_repeat_index(t, n + 1);
    assert(n <= (n + 1) * t.len()) by (nonlinear_arith)
        requires
            t.len() > 0,
    ;
    assert(text_bytes(t, false, n) =~= cycle(t, n));
}

proof fn lemma_pieces_plain(t: Seq<u8>, k: nat)
    ensures
        pieces(t, false, k) == repeat(t, k),
    decreases k,
{
    if k > 0 {
        lemma_pieces_plain(t, (k - 1) as nat);
    }
}

/// Get a vector of u8 values the length of the bytes param; the template param
/// is repeated to fill the return value.
pub fn get_blob(bytes: usize, template: &[u8]) -> (r: Result<Vec<u8>, FillError>)
    ensures
        template@.len() == 0 ==> r == Err::<Vec<u8>, FillError>(FillError::InvalidTemplate),
        template@.len() > 0 ==> (r matches Ok(v) && v@ == cycle(template@, bytes as nat)),
{
    if template.len() == 0 {
        return Err(FillError::InvalidTemplate);
    }
    let mut ret: Vec<u8> = Vec::new();
    while ret.len() < bytes
        invariant
            template@.len() > 0,
            ret.len() <= bytes,
            ret@ == cycle(template@, ret.len() as nat),
        decreases bytes - ret.len(),
    {
        let b = template[ret.len() % template.len()];
        ret.push(b);
        assert(ret@ =~= cycle(template@, ret.len() as nat));
    }
    Ok(ret)
}

/// ASCII `'0'`.
pub const DIGIT_ZERO: u8 = 48;

/// ASCII `'.'`.
pub const FULL_STOP: u8 = 46;

/// ASCII space.
pub const SPACE: u8 = 32;

/// Decimal digits of `k`, as ASCII bytes, most significant first.
pub open spec fn decimal(k: nat) -> Seq<u8>
    decreases k,
{
    if k < 10 {
        seq![(DIGIT_ZERO + k) as u8]
    } else {
        decimal(k / 10).push((DIGIT_ZERO + k % 10) as u8)
    }
}

/// The `i`-th repetition of the template `t`: `"{i}. "` and `t` where numbered,
/// else `t` alone.
pub open spec fn piece(t: Seq<u8>, numbered: bool, i: nat) -> Seq<u8> {
    if numbered {
        decimal(i) + seq![FULL_STOP, SPACE] + t
    } else {
        t
    }
}

/// The first `k` repetitions of the template, end to end.
pub open spec fn pieces(t: Seq<u8>, numbered: bool, k: nat) -> Seq<u8>
    decreases k,
{
    if k == 0 {
        Seq::empty()
    } else {
        pieces(t, numbered, (k - 1) as nat) + piece(t, numbered, (k - 1) as nat)
    }
}

/// The first `n` bytes of the repetitions of a non-empty template, end to end.
/// Each repetition holds at least one byte, so `n + 1` of them are enough.
pub open spec fn text_bytes(t: Seq<u8>, numbered: bool, n: nat) -> Seq<u8>
    recommends
        t.len() > 0,
{
    pieces(t, numbered, n + 1).take(n as int)
}

proof fn lemma_pieces_len(t: Seq<u8>, numbered: bool, k: nat)
    requires
        t.len() > 0,
    ensures
        pieces(t, numbered, k).len() >= k,
    decreases k,
{
    if k > 0 {
        lemma_pieces_len(t, numbered, (k - 1) as nat);
    }
}

proof fn lemma_pieces_prefix(t: Seq<u8>, numbered: bool, i: nat, j: nat)
    requires
        i <= j,
    ensures
        pieces(t, numbered, i).len() <= pieces(t, numbered, j).len(),
        pieces(t, numbered, j).take(pieces(t, numbered, i).len() as int) == pieces(
            t,
            numbered,
            i,
        ),
    decreases j,
{
    if i < j {
        lemma_pieces_prefix(t, numbered, i, (j - 1) as nat);
        let a = pieces(t, numbered, i);
        let b = pieces(t, numbered, (j - 1) as nat);
        assert((b + piece(t, numbered, (j - 1) as nat)).take(a.len() as int) =~= b.take(
            a.len() as int,
        ));
    } else {
        assert(pieces(t, numbered, j).take(pieces(t, numbered, i).len() as int) =~= pieces(
            t,
            numbered,
            i,
        ));
    }
}

/// Appends the decimal digits of `k` to `out`.
fn push_decimal(out: &mut Vec<u8>, k: usize)
    ensures
        final(out)@ == old(out)@ + decimal(k as nat),
    decreases k,
{
    if k >= 10 {
        push_decimal(out, k / 10);
    }
    let d = (k % 10) as u8;
    out.push(DIGIT_ZERO + d);
    assert(final(out)@ =~= old(out)@ + decimal(k as nat));
}

/// Appends the bytes of `src` to `out` until `out` holds `cap` bytes.
fn push_capped(out: &mut Vec<u8>, src: &[u8], cap: usize)
    requires
        old(out).len() <= cap,
    ensures
        final(out)@ == (old(out)@ + src@).take(
            if old(out).len() + src.len() < cap {
                old(out).len() + src.len()
            } else {
                cap as int
            },
        ),
{
    let ghost start = out@;
    let mut j: usize = 0;
    while j < src.len() && out.len() < cap
        invariant
            start.len() <= cap,
            j <= src.len(),
            out.len() <= cap,
            out@ == (start + src@).take(start.len() + j),
        decreases src.len() - j,
    {
        out.push(src[j]);
        j = j + 1;
        assert(out@ =~= (start + src@).take(start.len() + j));
    }
}

/// The first `bytes` bytes of the repetitions of `template`.
fn text_bytes_of(bytes: usize, template: &[u8], numbered: bool) -> (r: Vec<u8>)
    requires
        template@.len() > 0,
    ensures
        r@ == text_bytes(template@, numbered, bytes as nat),
{
    let mut ret: Vec<u8> = Vec::new();
    let mut i: usize = 0;
    proof {
        lemma_pieces_len(template@, numbered, 0);
    }
    while ret.len() < bytes
        invariant
            template@.len() > 0,
            i <= bytes,
            ret.len() <= bytes,
            i <= pieces(template@, numbered, i as nat).len(),
            ret.len() <= pieces(template@, numbered, i as nat).len(),
            ret@ == pieces(template@, numbered, i as nat).take(ret.len() as int),
            ret.len() < bytes ==> ret.len() == pieces(template@, numbered, i as nat).len(),
        decreases bytes - ret.len(),
    {
        let mut p: Vec<u8> = Vec::new();
        if numbered {
            push_decimal(&mut p, i);
            p.push(FULL_STOP);
            p.push(SPACE);
        }
        p.extend_from_slice(template);
        assert(p@ =~= piece(template@, numbered, i as nat));
        let ghost before = ret@;
        push_capped(&mut ret, p.as_slice(), bytes);
        proof {
            let next = pieces(template@, numbered, (i + 1) as nat);
            assert(next == before + p@);
            assert(ret@ =~= next.take(ret.len() as int));
        }
        i = i + 1;
    }
    proof {
        lemma_pieces_prefix(template@, numbered, i as nat, (bytes + 1) as nat);
        assert(ret@ =~= text_bytes(template@, numbered, bytes as nat));
    }
    ret
}

/// Every byte of `b` is ASCII.
pub open spec fn all_ascii(b: Seq<u8>) -> bool {
    forall|i: int| 0 <= i < b.len() ==> #[trigger] b[i] < 128
}

proof fn lemma_decimal_ascii(k: nat)
    ensures
        all_ascii(decimal(k)),
    decreases k,
{
    if k >= 10 {
        lemma_decimal_ascii(k / 10);
    }
}

proof fn lemma_pieces_ascii(t: Seq<u8>, numbered: bool, k: nat)
    requires
        all_ascii(t),
    ensures
        all_ascii(pieces(t, numbered, k)),
    decreases k,
{
    if k > 0 {
        lemma_pieces_ascii(t, numbered, (k - 1) as nat);
        lemma_decimal_ascii((k - 1) as nat);
        let p = piece(t, numbered, (k - 1) as nat);
        let all = pieces(t, numbered, k);
        let prev = pieces(t, numbered, (k - 1) as nat);
        assert forall|i: int| 0 <= i < all.len() implies #[trigger] all[i] < 128 by {
            if i >= prev.len() {
                assert(all[i] == p[i - prev.len()]);
            }
        }
    }
}

/// Text made by repeating an ASCII template is ASCII throughout, so it may be
/// cut after any byte: every cut is valid UTF-8.
pub proof fn lemma_ascii_template_cuts_cleanly(t: Seq<u8>, numbered: bool, n: nat)
    requires
        t.len() > 0,
        all_ascii(t),
    ensures
        valid_utf8(text_bytes(t, numbered, n)),
{
    lemma_pieces_ascii(t, numbered, n + 1);
    lemma_pieces_len(t, numbered, n + 1);
    let b = text_bytes(t, numbered, n);
    assert(valid_utf8(b.subrange(0, 0)));
    partial_valid_utf8_extend_ascii_block(b, 0, b.len() as int);
    assert(b.subrange(0, b.len() as int) =~= b);
}

/// The same for a template given as ASCII characters: every cut of its text is
/// valid UTF-8.
pub proof fn lemma_ascii_text_cuts_cleanly(t: Seq<char>, numbered: bool, n: nat)
    requires
        t.len() > 0,
        is_ascii_chars(t),
    ensures
        valid_utf8(text_bytes(encode_utf8(t), numbered, n)),
{
    is_ascii_chars_encode_utf8(t);
    let tb = encode_utf8(t);
    assert forall|i: int| 0 <= i < tb.len() implies #[trigger] tb[i] < 128 by {
        assert(t[i] as u8 == tb[i]);
    }
    lemma_ascii_template_cuts_cleanly(tb, numbered, n);
}

/// Relies on `String::from_utf8`: the text that a byte vector encodes, `None`
/// where the bytes are not valid UTF-8.
#[verifier::external_body]
fn string_from_utf8(v: Vec<u8>) -> (r: Option<String>)
    ensures
        r is Some <==> valid_utf8(v@),
        r matches Some(s) ==> s@ == decode_utf8(v@),
{
    String::from_utf8(v).ok()
}

/// This function returns a string `bytes` bytes long. The `template` is repeated
/// as many times as needed to reach `bytes`; if `numbered` is true, each
/// repetition is preceded by its number, a '.' and a space. Any overflow is cut
/// off. The cut must fall between two characters.
pub fn get_string(bytes: usize, template: &str, numbered: bool) -> (r: Result<String, FillError>)
    requires
        template@.len() > 0 ==> valid_utf8(text_bytes(template.spec_bytes(), numbered, bytes as nat)),
    ensures
        template@.len() == 0 ==> r == Err::<String, FillError>(FillError::InvalidTemplate),
        template@.len() > 0 ==> (r matches Ok(s) && encode_utf8(s@) == text_bytes(
            template.spec_bytes(),
            numbered,
            bytes as nat,
        )),
{
    let tb = template.as_bytes();
    proof {
        if template@.len() > 0 {
            assert(encode_utf8(template@).len() > 0);
        }
    }
    if tb.len() == 0 {
        return Err(FillError::InvalidTemplate);
    }
    let v = text_bytes_of(bytes, tb, numbered);
    match string_from_utf8(v) {
        Some(s) => {
            proof {
                decode_utf8_encode_utf8(v@);
            }
            Ok(s)
        },
        // not reached: the bytes are valid UTF-8
        None => Err(FillError::InvalidTemplate),
    }
}

/// The text that `get_lorem` repeats.
pub const LOREM: &'static str = "Lorem ipsum dolor sit amet, consectetur adipiscing elit, sed do eiusmod tempor incididunt ut labore et dolore magna aliqua. Ut enim ad minim veniam, quis nostrud exercitation ullamco laboris nisi ut aliquip ex ea commodo consequat. Duis aute irure dolor in reprehenderit in voluptate velit esse cillum dolore eu fugiat nulla pariatur. Excepteur sint occaecat cupidatat non proident, sunt in culpa qui officia deserunt mollit anim id est laborum.";

/// This function returns a string as long as the `bytes` parameter, made of
/// lorem ipsum text; `numbered` is passed on to `get_string`.
pub fn get_lorem(bytes: usize, numbered: bool) -> (r: String)
    ensures
        encode_utf8(r@) == text_bytes(LOREM.spec_bytes(), numbered, bytes as nat),
{
    let lorem = LOREM;
    proof {
        reveal_strlit("Lorem ipsum dolor sit amet, consectetur adipiscing elit, sed do eiusmod tempor incididunt ut labore et dolore magna aliqua. Ut enim ad minim veniam, quis nostrud exercitation ullamco laboris nisi ut aliquip ex ea commodo consequat. Duis aute irure dolor in reprehenderit in voluptate velit esse cillum dolore eu fugiat nulla pariatur. Excepteur sint occaecat cupidatat non proident, sunt in culpa qui officia deserunt mollit anim id est laborum.");
        lemma_ascii_text_cuts_cleanly(lorem@, numbered, bytes as nat);
    }
    match get_string(bytes, lorem, numbered) {
        Ok(s) => s,
        // not reached: the text is not empty
        Err(_) => String::new(),
    }
}

/// Fills a blob of exactly `bytes` bytes with successive outputs of `rng`.
pub fn fill_blob(bytes: usize, rng: &mut Rng) -> (r: Vec<u8>)
    ensures
        r@ == old(rng).stream(bytes as nat),
        final(rng).seed() == old(rng).seed(),
        (final(rng).weyl(), final(rng).state()) == advance(
            old(rng).seed(),
            old(rng).weyl(),
            old(rng).state(),
            bytes as nat,
        ),
{
    let ghost seed = rng.seed();
    let ghost w0 = rng.weyl();
    let ghost x0 = rng.state();
    let mut ret: Vec<u8> = Vec::new();
    while ret.len() < bytes
        invariant
            ret.len() <= bytes,
            rng.seed() == seed,
            (rng.weyl(), rng.state()) == advance(seed, w0, x0, ret.len() as nat),
            ret@ == output_stream(seed, w0, x0, ret.len() as nat),
        decreases bytes - ret.len(),
    {
        let b = rng.next();
        ret.push(b);
        assert(ret@ =~= output_stream(seed, w0, x0, ret.len() as nat));
    }
    ret
}

/// This function returns a `Vec<u8>` generated with a very simple PRNG seeded
/// from the clock (see `Rng::default`).
pub fn get_rng_blob(bytes: usize) -> (r: Vec<u8>)
    ensures
        r@.len() == bytes,
        exists|seed: u8| r@ == output_stream(seed, 0, 0, bytes as nat),
{
    let mut rng = Rng::default();
    fill_blob(bytes, &mut rng)
}

/// This function returns a `Vec<u8>` generated with a very simple PRNG seeded
/// with the provided seed: the same seed always gives the same sequence.
pub fn get_seeded_rng_blob(bytes: usize, seed: u8) -> (r: Vec<u8>)
    ensures
        r@ == output_stream(seed, 0, 0, bytes as nat),
{
    let mut rng = Rng::new(seed);
    fill_blob(bytes, &mut rng)
}

} // verus!
