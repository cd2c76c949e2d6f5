//! Archive paths: normalization, case folding and the rules for entry names.

use vstd::prelude::*;
use vstd::seq::*;
use vstd::seq_lib::*;
use vstd::slice::*;
use vstd::string::*;
use vstd::utf8::*;

use crate::error;
use crate::error::{invalid_input, Result};
use crate::text;
use crate::text::lossy;

verus! {

pub const SLASH: u8 = 0x2F;

pub const BACKSLASH: u8 = 0x5C;

pub const DOT: u8 = 0x2E;

pub const SPACE: u8 = 0x20;

pub const COLON: u8 = 0x3A;

/// Whether `b` is an ASCII capital.
pub open spec fn is_upper(b: u8) -> bool {
    0x41 <= b <= 0x5A
}

/// `b` with an ASCII capital made small.
pub open spec fn lower_byte(b: u8) -> u8 {
    if is_upper(b) {
        (b + 0x20) as u8
    } else {
        b
    }
}

/// `s` with every ASCII capital made small.
pub open spec fn lower_bytes(s: Seq<u8>) -> Seq<u8> {
    Seq::new(s.len(), |i: int| lower_byte(s[i]))
}

/// `b` with a backslash made a slash.
pub open spec fn slash_byte(b: u8) -> u8 {
    if b == BACKSLASH {
        SLASH
    } else {
        b
    }
}

/// `s` cut back to its last slash, which stays.
pub open spec fn cut_to_slash(s: Seq<u8>) -> Seq<u8>
    decreases s.len(),
{
    if s.len() == 0 || s.last() == SLASH {
        s
    } else {
        cut_to_slash(s.drop_last())
    }
}

/// Whether `s` ends in `/..`.
pub open spec fn ends_with_parent(s: Seq<u8>) -> bool {
    s.len() > 2 && s[s.len() - 3] == SLASH && s[s.len() - 2] == DOT && s[s.len() - 1] == DOT
}

/// The normalized path so far, after one more byte of the raw path.
///
/// A slash after `/..` removes the last directory; a slash after a dot
/// removes the dot; a slash after a slash is dropped.
pub open spec fn path_step(out: Seq<u8>, byte: u8, lowercase: bool) -> Seq<u8> {
    let value = slash_byte(byte);
    if value == SLASH && ends_with_parent(out) {
        cut_to_slash(out.take(out.len() - 3))
    } else if value == SLASH && out.len() > 0 && out.last() == DOT {
        out.drop_last()
    } else if value == SLASH && out.len() > 0 && out.last() == SLASH {
        out
    } else if lowercase {
        out.push(lower_byte(value))
    } else {
        out.push(value)
    }
}

/// The normalized path, from what is normalized already and what is left.
pub open spec fn path_walk(out: Seq<u8>, rest: Seq<u8>, lowercase: bool) -> Seq<u8>
    decreases rest.len(),
{
    if rest.len() == 0 {
        out
    } else {
        path_walk(path_step(out, rest[0], lowercase), rest.drop_first(), lowercase)
    }
}

/// `s` without its trailing spaces.
pub open spec fn trim_spaces(s: Seq<u8>) -> Seq<u8>
    decreases s.len(),
{
    if s.len() > 0 && s.last() == SPACE {
        trim_spaces(s.drop_last())
    } else {
        s
    }
}

/// The normalized form of a raw path.
pub open spec fn normalized(path: Seq<u8>, lowercase: bool) -> Seq<u8> {
    trim_spaces(path_walk(Seq::empty(), path, lowercase))
}

/// Whether the byte at `i` is one that normalization keeps where it is.
pub open spec fn settled_at(s: Seq<u8>, i: int, lowercase: bool) -> bool {
    &&& s[i] != BACKSLASH
    &&& (i > 0 && s[i] == SLASH ==> s[i - 1] != SLASH && s[i - 1] != DOT)
    &&& (lowercase ==> !is_upper(s[i]))
}

/// Whether normalization keeps every byte of `s`, trailing spaces aside.
pub open spec fn settled(s: Seq<u8>, lowercase: bool) -> bool {
    forall|i: int| 0 <= i < s.len() ==> #[trigger] settled_at(s, i, lowercase)
}

/// Whether `s` is its own normalized form.
pub open spec fn is_normalized(s: Seq<u8>, lowercase: bool) -> bool {
    settled(s, lowercase) && (s.len() > 0 ==> s.last() != SPACE)
}

proof fn lemma_settled_prefix(s: Seq<u8>, k: int, lowercase: bool)
    requires
        settled(s, lowercase),
        0 <= k <= s.len(),
    ensures
        settled(s.take(k), lowercase),
{
    assert forall|i: int| 0 <= i < k implies #[trigger] settled_at(s.take(k), i, lowercase) by {
        assert(settled_at(s, i, lowercase));
    }
}

proof fn lemma_cut_to_slash(s: Seq<u8>) -> (k: int)
    ensures
        0 <= k <= s.len(),
        cut_to_slash(s) == s.take(k),
        k == 0 || s[k - 1] == SLASH,
    decreases s.len(),
{
    if s.len() == 0 || s.last() == SLASH {
        assert(s.take(s.len() as int) =~= s);
        s.len() as int
    } else {
        let k = lemma_cut_to_slash(s.drop_last());
        assert(s.drop_last().take(k) =~= s.take(k));
        k
    }
}

proof fn lemma_step_settled(out: Seq<u8>, byte: u8, lowercase: bool)
    requires
        settled(out, lowercase),
    ensures
        settled(path_step(out, byte, lowercase), lowercase),
{
    let value = slash_byte(byte);
    let next = path_step(out, byte, lowercase);
    if value == SLASH && ends_with_parent(out) {
        let short = out.take(out.len() - 3);
        lemma_settled_prefix(out, out.len() - 3, lowercase);
        let k = lemma_cut_to_slash(short);
        lemma_settled_prefix(short, k, lowercase);
    } else if value == SLASH && out.len() > 0 && out.last() == DOT {
        lemma_settled_prefix(out, out.len() - 1, lowercase);
        assert(out.drop_last() =~= out.take(out.len() - 1));
    } else if value == SLASH && out.len() > 0 && out.last() == SLASH {
    } else {
        assert forall|i: int| 0 <= i < next.len() implies #[trigger] settled_at(
            next,
            i,
            lowercase,
        ) by {
            if i < out.len() {
                assert(settled_at(out, i, lowercase));
            }
        }
    }
}

proof fn lemma_walk_settled(out: Seq<u8>, rest: Seq<u8>, lowercase: bool)
    requires
        settled(out, lowercase),
    ensures
        settled(path_walk(out, rest, lowercase), lowercase),
    decreases rest.len(),
{
    if rest.len() > 0 {
        lemma_step_settled(out, rest[0], lowercase);
        lemma_walk_settled(path_step(out, rest[0], lowercase), rest.drop_first(), lowercase);
    }
}

proof fn lemma_trim_spaces(s: Seq<u8>) -> (k: int)
    ensures
        0 <= k <= s.len(),
        trim_spaces(s) == s.take(k),
        k > 0 ==> s[k - 1] != SPACE,
        forall|i: int| k <= i < s.len() ==> s[i] == SPACE,
    decreases s.len(),
{
    if s.len() > 0 && s.last() == SPACE {
        let k = lemma_trim_spaces(s.drop_last());
        assert(s.drop_last().take(k) =~= s.take(k));
        assert forall|i: int| k <= i < s.len() implies s[i] == SPACE by {
            if i < s.len() - 1 {
                assert(s.drop_last()[i] == s[i]);
            }
        }
        k
    } else {
        assert(s.take(s.len() as int) =~= s);
        s.len() as int
    }
}

/// A normalized path needs no further normalization.
pub proof fn law_normalized_is_normalized(path: Seq<u8>, lowercase: bool)
    ensures
        is_normalized(normalized(path, lowercase), lowercase),
{
    let whole = path_walk(Seq::empty(), path, lowercase);
    lemma_walk_settled(Seq::empty(), path, lowercase);
    let k = lemma_trim_spaces(whole);
    lemma_settled_prefix(whole, k, lowercase);
}

proof fn lemma_walk_keeps_settled(out: Seq<u8>, rest: Seq<u8>, lowercase: bool)
    requires
        settled(out + rest, lowercase),
    ensures
        path_walk(out, rest, lowercase) == out + rest,
    decreases rest.len(),
{
    if rest.len() > 0 {
        let all = out + rest;
        assert(settled_at(all, out.len() as int, lowercase));
        assert(all[out.len() as int] == rest[0]);
        if out.len() > 0 {
            assert(all[out.len() - 1] == out.last());
        }
        assert(path_step(out, rest[0], lowercase) == out.push(rest[0]));
        assert(out.push(rest[0]) + rest.drop_first() =~= all);
        lemma_walk_keeps_settled(out.push(rest[0]), rest.drop_first(), lowercase);
    } else {
        assert(out + rest =~= out);
    }
}

/// A path is its own normalized form exactly when it needs no normalization.
pub proof fn law_normalized_fixpoint(path: Seq<u8>, lowercase: bool)
    ensures
        is_normalized(path, lowercase) <==> normalized(path, lowercase) == path,
{
    if is_normalized(path, lowercase) {
        assert(Seq::<u8>::empty() + path =~= path);
        lemma_walk_keeps_settled(Seq::empty(), path, lowercase);
    }
    law_normalized_is_normalized(path, lowercase);
}

/// Normalizing twice is normalizing once.
pub proof fn law_normalized_idempotent(path: Seq<u8>, lowercase: bool)
    ensures
        normalized(normalized(path, lowercase), lowercase) == normalized(path, lowercase),
{
    law_normalized_is_normalized(path, lowercase);
    law_normalized_fixpoint(normalized(path, lowercase), lowercase);
}

proof fn lemma_valid_prefix(s: Seq<u8>, k: int)
    requires
        valid_utf8(s),
        0 <= k <= s.len(),
        k < s.len() ==> !is_continuation_byte(s[k]),
    ensures
        valid_utf8(s.take(k)),
{
    if k == s.len() {
        assert(s.take(k) =~= s);
    } else {
        is_char_boundary_iff_not_is_continuation_byte(s, k);
        valid_utf8_split(s, k);
        assert(s.take(k) =~= s.subrange(0, k));
    }
}

proof fn lemma_ascii_valid(b: u8)
    requires
        b < 0x80,
    ensures
        valid_utf8(seq![b]),
{
    let s = seq![b];
    assert((b & 0x7F) as u32 == b as u32) by (bit_vector)
        requires
            b < 0x80,
    ;
    assert(valid_first_scalar(s));
    assert(pop_first_scalar(s).len() == 0);
    assert(valid_utf8(pop_first_scalar(s)));
}

/// A valid text cut behind one of its ASCII bytes is valid.
proof fn lemma_valid_behind_ascii(s: Seq<u8>, k: int)
    requires
        valid_utf8(s),
        0 < k <= s.len(),
        s[k - 1] < 0x80,
    ensures
        valid_utf8(s.take(k)),
{
    lemma_valid_prefix(s, k - 1);
    lemma_ascii_valid(s[k - 1]);
    valid_utf8_concat(s.take(k - 1), seq![s[k - 1]]);
    assert(s.take(k) =~= s.take(k - 1) + seq![s[k - 1]]);
}

proof fn lemma_step_valid(out: Seq<u8>, byte: u8, lowercase: bool)
    requires
        valid_utf8(out),
        byte < 0x80,
    ensures
        valid_utf8(path_step(out, byte, lowercase)),
{
    let value = slash_byte(byte);
    if value == SLASH && ends_with_parent(out) {
        let short = out.take(out.len() - 3);
        lemma_valid_prefix(out, out.len() - 3);
        let k = lemma_cut_to_slash(short);
        if k == 0 {
            assert(short.take(0) =~= Seq::<u8>::empty());
        } else {
            lemma_valid_behind_ascii(short, k);
        }
    } else if value == SLASH && out.len() > 0 && out.last() == DOT {
        lemma_valid_prefix(out, out.len() - 1);
        assert(out.drop_last() =~= out.take(out.len() - 1));
    } else if value == SLASH && out.len() > 0 && out.last() == SLASH {
    } else {
        let b = if lowercase { lower_byte(value) } else { value };
        lemma_ascii_valid(b);
        valid_utf8_concat(out, seq![b]);
        assert(out.push(b) =~= out + seq![b]);
    }
}

proof fn lemma_walk_high(out: Seq<u8>, rest: Seq<u8>, n: nat, lowercase: bool)
    requires
        n <= rest.len(),
        forall|i: int| 0 <= i < n ==> rest[i] >= 0x80,
    ensures
        path_walk(out, rest, lowercase) == path_walk(out + rest.take(n as int), rest.skip(n as int), lowercase),
    decreases n,
{
    if n == 0 {
        assert(out + rest.take(0) =~= out);
        assert(rest.skip(0) =~= rest);
    } else {
        assert(path_step(out, rest[0], lowercase) == out.push(rest[0]));
        let tail = rest.drop_first();
        lemma_walk_high(out.push(rest[0]), tail, (n - 1) as nat, lowercase);
        assert(out.push(rest[0]) + tail.take(n - 1) =~= out + rest.take(n as int));
        assert(tail.skip(n - 1) =~= rest.skip(n as int));
    }
}

proof fn lemma_walk_valid(out: Seq<u8>, rest: Seq<u8>, lowercase: bool)
    requires
        valid_utf8(out),
        valid_utf8(rest),
    ensures
        valid_utf8(path_walk(out, rest, lowercase)),
    decreases rest.len(),
{
    if rest.len() > 0 {
        let n = length_of_first_scalar(rest);
        let tail = pop_first_scalar(rest);
        assert(1 <= n <= rest.len());
        if n == 1 {
            assert(rest[0] < 0x80);
            lemma_step_valid(out, rest[0], lowercase);
            assert(rest.drop_first() =~= tail);
            lemma_walk_valid(path_step(out, rest[0], lowercase), tail, lowercase);
        } else {
            lemma_walk_high(out, rest, n as nat, lowercase);
            assert(rest.skip(n) =~= tail);
            reveal_with_fuel(is_char_boundary, 2);
            assert(is_char_boundary(rest, n));
            valid_utf8_split(rest, n);
            assert(rest.take(n) =~= rest.subrange(0, n));
            valid_utf8_concat(out, rest.take(n));
            lemma_walk_valid(out + rest.take(n), tail, lowercase);
        }
    }
}

/// Normalization keeps valid text valid.
pub proof fn law_normalized_valid(path: Seq<u8>, lowercase: bool)
    requires
        valid_utf8(path),
    ensures
        valid_utf8(normalized(path, lowercase)),
{
    lemma_walk_valid(Seq::empty(), path, lowercase);
    let whole = path_walk(Seq::empty(), path, lowercase);
    let k = lemma_trim_spaces(whole);
    lemma_valid_prefix(whole, k);
}

/// Normalize a raw path.
pub fn normalize_bytes(path: &[u8], lowercase: bool) -> (out: Vec<u8>)
    ensures
        out@ == normalized(path@, lowercase),
{
    let mut out: Vec<u8> = Vec::new();
    let mut i: usize = 0;
    assert(path@.skip(0) =~= path@);
    while i < path.len()
        invariant
            i <= path@.len(),
            path_walk(out@, path@.skip(i as int), lowercase) == path_walk(
                Seq::empty(),
                path@,
                lowercase,
            ),
        decreases path@.len() - i,
    {
        let byte: u8 = path[i];
        let value: u8 = if byte == BACKSLASH {
            SLASH
        } else {
            byte
        };
        let n: usize = out.len();
        let ghost before = out@;
        proof {
            assert(path@.skip(i as int)[0] == byte);
            assert(path@.skip(i as int).drop_first() =~= path@.skip(i + 1));
        }
        if value == SLASH && n > 2 && out[n - 3] == SLASH && out[n - 2] == DOT && out[n - 1] == DOT {
            out.truncate(n - 3);
            assert(out@ =~= before.take(n - 3));
            while out.len() > 0 && out[out.len() - 1] != SLASH
                invariant
                    cut_to_slash(out@) == cut_to_slash(before.take(n - 3)),
                decreases out@.len(),
            {
                let ghost longer = out@;
                out.pop();
                assert(out@ =~= longer.drop_last());
            }
        } else if value == SLASH && n > 0 && out[n - 1] == DOT {
            out.pop();
            assert(out@ =~= before.drop_last());
        } else if value == SLASH && n > 0 && out[n - 1] == SLASH {
        } else if lowercase && 0x41 <= value && value <= 0x5A {
            out.push(value + 0x20);
        } else {
            out.push(value);
        }
        assert(out@ == path_step(before, byte, lowercase));
        i += 1;
    }
    assert(path@.skip(i as int) =~= Seq::<u8>::empty());
    let ghost whole = out@;
    while out.len() > 0 && out[out.len() - 1] == SPACE
        invariant
            trim_spaces(out@) == trim_spaces(whole),
        decreases out@.len(),
    {
        let ghost longer = out@;
        out.pop();
        assert(out@ =~= longer.drop_last());
    }
    out
}

/// Whether normalization would change a raw path.
pub fn p4k_path_bytes_need_normalization(path: &[u8], lowercase: bool) -> (r: bool)
    ensures
        r == !is_normalized(path@, lowercase),
        r == (normalized(path@, lowercase) != path@),
{
    proof {
        law_normalized_fixpoint(path@, lowercase);
    }
    if path.len() > 0 && path[path.len() - 1] == SPACE {
        return true;
    }
    let mut i: usize = 0;
    while i < path.len()
        invariant
            i <= path@.len(),
            forall|j: int| 0 <= j < i ==> #[trigger] settled_at(path@, j, lowercase),
            normalized(path@, lowercase) == path@ <==> is_normalized(path@, lowercase),
        decreases path@.len() - i,
    {
        let byte: u8 = path[i];
        if byte == BACKSLASH || (lowercase && 0x41 <= byte && byte <= 0x5A) || (byte == SLASH && i
            > 0 && (path[i - 1] == SLASH || path[i - 1] == DOT)) {
            assert(!settled_at(path@, i as int, lowercase));
            return true;
        }
        i += 1;
    }
    false
}

/// `s` with every `from` made `to`.
pub open spec fn replaced(s: Seq<u8>, from: u8, to: u8) -> Seq<u8> {
    Seq::new(
        s.len(),
        |i: int|
            if s[i] == from {
                to
            } else {
                s[i]
            },
    )
}

proof fn lemma_first_scalar_of_high(s: Seq<u8>, t: Seq<u8>)
    requires
        valid_first_scalar(s),
        length_of_first_scalar(s) > 1,
        s.len() == t.len(),
        forall|i: int| 0 <= i < s.len() && s[i] >= 0x80 ==> t[i] == s[i],
    ensures
        valid_first_scalar(t),
        length_of_first_scalar(t) == length_of_first_scalar(s),
{
}

/// Swapping one ASCII byte for another keeps valid text valid.
pub proof fn lemma_replaced_valid(s: Seq<u8>, from: u8, to: u8)
    requires
        valid_utf8(s),
        from < 0x80,
        to < 0x80,
    ensures
        valid_utf8(replaced(s, from, to)),
    decreases s.len(),
{
    let t = replaced(s, from, to);
    if s.len() > 0 {
        let tail = pop_first_scalar(s);
        lemma_replaced_valid(tail, from, to);
        if length_of_first_scalar(s) == 1 {
            lemma_ascii_valid(t[0]);
            valid_utf8_concat(seq![t[0]], replaced(tail, from, to));
            assert(t =~= seq![t[0]] + replaced(tail, from, to));
        } else {
            lemma_first_scalar_of_high(s, t);
            assert(pop_first_scalar(t) =~= replaced(tail, from, to));
        }
    }
}

/// Replace one ASCII character by another.
pub fn replace_ascii(s: &str, from: u8, to: u8) -> (r: String)
    requires
        from < 0x80,
        to < 0x80,
    ensures
        encode_utf8(r@) == replaced(encode_utf8(s@), from, to),
{
    let bytes = s.as_bytes();
    let mut out: Vec<u8> = Vec::new();
    let mut i: usize = 0;
    while i < bytes.len()
        invariant
            i <= bytes@.len(),
            out@ == replaced(bytes@, from, to).take(i as int),
        decreases bytes@.len() - i,
    {
        let b: u8 = bytes[i];
        out.push(if b == from { to } else { b });
        i += 1;
        assert(out@ =~= replaced(bytes@, from, to).take(i as int));
    }
    proof {
        assert(out@ =~= replaced(bytes@, from, to));
        encode_utf8_valid_utf8(s@);
        lemma_replaced_valid(bytes@, from, to);
        decode_utf8_encode_utf8(out@);
    }
    lossy(out.as_slice())
}

/// Normalize a path.
pub fn normalize_p4k_path(path: &str, lowercase: bool) -> (r: String)
    ensures
        encode_utf8(r@) == normalized(encode_utf8(path@), lowercase),
{
    let out: Vec<u8> = normalize_bytes(path.as_bytes(), lowercase);
    proof {
        encode_utf8_valid_utf8(path@);
        law_normalized_valid(encode_utf8(path@), lowercase);
        decode_utf8_encode_utf8(out@);
    }
    lossy(out.as_slice())
}

/// Normalize a path of unchecked bytes.
pub fn normalize_p4k_path_bytes(path: &[u8], lowercase: bool) -> (r: String)
    ensures
        r@ == text::lossy_text(normalized(path@, lowercase)),
{
    let out: Vec<u8> = normalize_bytes(path, lowercase);
    lossy(out.as_slice())
}

/// The key under which a name is looked up: its normalized small form.
pub open spec fn name_key(name: Seq<char>) -> Seq<u8> {
    normalized(encode_utf8(name), true)
}

/// A key under which a name is looked up, borrowed from the name where the
/// name is its own key.
#[derive(Debug)]
pub enum NameKey<'a> {
    /// The name itself.
    Borrowed(&'a str),
    /// The normalized small form of the name.
    Owned(String),
}

impl<'a> NameKey<'a> {
    /// The text of the key.
    pub open spec fn text(self) -> Seq<char> {
        match self {
            NameKey::Borrowed(s) => s@,
            NameKey::Owned(s) => s@,
        }
    }

    /// The text of the key.
    pub fn as_str(&self) -> (r: &str)
        ensures
            r@ == self.text(),
    {
        match self {
            NameKey::Borrowed(s) => s,
            NameKey::Owned(s) => s.as_str(),
        }
    }
}

/// The key under which a name is looked up.
pub fn filename_handle_key(name: &str) -> (r: NameKey<'_>)
    ensures
        encode_utf8(r.text()) == name_key(name@),
        r is Borrowed <==> is_normalized(encode_utf8(name@), true),
{
    if p4k_path_bytes_need_normalization(name.as_bytes(), true) {
        NameKey::Owned(normalize_p4k_path(name, true))
    } else {
        NameKey::Borrowed(name)
    }
}

/// The bytes of the key under which a name is looked up.
pub fn filename_handle_bytes(name: &str) -> (r: Vec<u8>)
    ensures
        r@ == name_key(name@),
{
    let key = filename_handle_key(name);
    slice_to_vec(key.as_str().as_bytes())
}

proof fn lemma_walk_lowered(out: Seq<u8>, rest: Seq<u8>)
    ensures
        path_walk(out, rest, true) == path_walk(out, lower_bytes(rest), true),
    decreases rest.len(),
{
    let low = lower_bytes(rest);
    if rest.len() > 0 {
        assert(low.drop_first() =~= lower_bytes(rest.drop_first()));
        assert(path_step(out, rest[0], true) == path_step(out, low[0], true));
        lemma_walk_lowered(path_step(out, rest[0], true), rest.drop_first());
    } else {
        assert(low =~= rest);
    }
}

/// The key of a name in normal form is the name with its capitals made small.
pub proof fn law_key_of_normal_name(name: Seq<u8>)
    requires
        is_normalized(name, false),
    ensures
        normalized(name, true) == lower_bytes(name),
{
    let low = lower_bytes(name);
    lemma_walk_lowered(Seq::empty(), name);
    assert forall|i: int| 0 <= i < low.len() implies #[trigger] settled_at(low, i, true) by {
        assert(settled_at(name, i, false));
    }
    law_normalized_fixpoint(low, true);
}

/// Whether two texts are the same but for ASCII case.
pub open spec fn same_but_case(a: Seq<u8>, b: Seq<u8>) -> bool {
    lower_bytes(a) == lower_bytes(b)
}

fn to_lower(b: u8) -> (r: u8)
    ensures
        r == lower_byte(b),
{
    if 0x41 <= b && b <= 0x5A {
        b + 0x20
    } else {
        b
    }
}

/// Whether two byte runs are the same but for ASCII case.
pub fn eq_ignore_case(a: &[u8], b: &[u8]) -> (r: bool)
    ensures
        r == same_but_case(a@, b@),
{
    if a.len() != b.len() {
        assert(lower_bytes(a@).len() != lower_bytes(b@).len());
        return false;
    }
    let mut i: usize = 0;
    while i < a.len()
        invariant
            i <= a@.len(),
            a@.len() == b@.len(),
            forall|j: int| 0 <= j < i ==> lower_byte(a@[j]) == lower_byte(b@[j]),
        decreases a@.len() - i,
    {
        if to_lower(a[i]) != to_lower(b[i]) {
            assert(lower_bytes(a@)[i as int] != lower_bytes(b@)[i as int]);
            return false;
        }
        i += 1;
    }
    assert(lower_bytes(a@) =~= lower_bytes(b@));
    true
}

/// Whether the bytes from `i` up to `j` are a whole path component.
pub open spec fn is_component(s: Seq<u8>, i: int, j: int) -> bool {
    &&& 0 <= i <= j <= s.len()
    &&& i == 0 || s[i - 1] == SLASH
    &&& j == s.len() || s[j] == SLASH
    &&& forall|k: int| i <= k < j ==> s[k] != SLASH
}

/// Whether a component is empty, `.` or `..`.
pub open spec fn is_special(part: Seq<u8>) -> bool {
    part.len() == 0 || part == seq![DOT] || part == seq![DOT, DOT]
}

/// Whether every component of `s` is an ordinary name.
pub open spec fn ordinary_components(s: Seq<u8>) -> bool {
    forall|i: int, j: int| #[trigger]
        is_component(s, i, j) ==> !is_special(s.subrange(i, j))
}

fn component_is_special(s: &[u8], i: usize, j: usize) -> (r: bool)
    requires
        i <= j <= s@.len(),
    ensures
        r == is_special(s@.subrange(i as int, j as int)),
{
    let ghost part = s@.subrange(i as int, j as int);
    assert(part.len() == 1 ==> part =~= seq![part[0]]);
    assert(part.len() == 2 ==> part =~= seq![part[0], part[1]]);
    assert(seq![DOT][0] == DOT && seq![DOT, DOT][0] == DOT && seq![DOT, DOT][1] == DOT);
    j == i || (j - i == 1 && s[i] == DOT) || (j - i == 2 && s[i] == DOT && s[i + 1] == DOT)
}

fn has_special_component(s: &[u8]) -> (r: bool)
    ensures
        r == !ordinary_components(s@),
{
    let mut start: usize = 0;
    let mut at: usize = 0;
    loop
        invariant
            start <= at <= s@.len(),
            start == 0 || s@[start - 1] == SLASH,
            forall|k: int| start <= k < at ==> s@[k] != SLASH,
            forall|i: int, j: int|
                #[trigger] is_component(s@, i, j) && j < start ==> !is_special(
                    s@.subrange(i, j),
                ),
        decreases s@.len() - at,
    {
        if at == s.len() || s[at] == SLASH {
            assert(is_component(s@, start as int, at as int));
            if component_is_special(s, start, at) {
                return true;
            }
            proof {
                assert forall|i: int, j: int|
                    #[trigger] is_component(s@, i, j) && j <= at implies !is_special(
                    s@.subrange(i, j),
                ) by {
                    if j >= start {
                        assert(j == at) by {
                            if j < at {
                                assert(s@[j] != SLASH);
                            }
                        }
                        if i < start {
                            assert(s@[start - 1] == SLASH);
                        } else if i > start {
                            assert(s@[i - 1] != SLASH);
                        }
                    }
                }
            }
            if at == s.len() {
                return false;
            }
            start = at + 1;
        }
        at += 1;
    }
}

fn contains_byte(s: &[u8], b: u8) -> (r: bool)
    ensures
        r == s@.contains(b),
{
    let mut i: usize = 0;
    while i < s.len()
        invariant
            i <= s@.len(),
            forall|j: int| 0 <= j < i ==> s@[j] != b,
        decreases s@.len() - i,
    {
        if s[i] == b {
            return true;
        }
        i += 1;
    }
    false
}

/// What becomes of a name given for a new entry: its normalized bytes, or why it is refused.
pub open spec fn archive_name_outcome(name: Seq<char>) -> std::result::Result<Seq<u8>, error::Fault> {
    let raw = encode_utf8(name);
    if raw.len() == 0 || raw.contains(0u8) {
        Err(error::invalid_input_fault("archive entry name is empty or contains NUL"@))
    } else if !ordinary_components(normalized(raw, false)) {
        Err(error::invalid_input_fault("archive entry name must be relative and normalized"@))
    } else {
        Ok(normalized(raw, false))
    }
}

/// Normalize the name of a new entry, and refuse one that is no relative path.
pub fn normalize_archive_name(name: &str) -> (r: Result<String>)
    ensures
        match r {
            Ok(s) => archive_name_outcome(name@) == Ok::<Seq<u8>, error::Fault>(encode_utf8(s@)),
            Err(e) => archive_name_outcome(name@) == Err::<Seq<u8>, error::Fault>(e@),
        },
{
    if name.as_bytes().len() == 0 || contains_byte(name.as_bytes(), 0) {
        return Err(invalid_input("archive entry name is empty or contains NUL"));
    }
    let normal = normalize_p4k_path(name, false);
    if has_special_component(normal.as_str().as_bytes()) {
        return Err(invalid_input("archive entry name must be relative and normalized"));
    }
    Ok(normal)
}

/// What becomes of an entry name that is to be written below a directory.
pub open spec fn output_path_outcome(name: Seq<char>) -> std::result::Result<Seq<u8>, error::Fault> {
    let slashed = replaced(encode_utf8(name), BACKSLASH, SLASH);
    if !ordinary_components(slashed) || slashed.contains(COLON) {
        Err(error::invalid_input_fault("unsafe archive path: "@ + name))
    } else {
        Ok(slashed)
    }
}

/// The path of an entry below an output directory.
///
/// A name with an empty, `.` or `..` component, or with a colon, could leave
/// the directory and is refused.
pub fn safe_output_path(archive_name: &str) -> (r: Result<String>)
    ensures
        match r {
            Ok(s) => output_path_outcome(archive_name@) == Ok::<Seq<u8>, error::Fault>(
                encode_utf8(s@),
            ),
            Err(e) => output_path_outcome(archive_name@) == Err::<Seq<u8>, error::Fault>(e@),
        },
{
    let slashed = replace_ascii(archive_name, BACKSLASH, SLASH);
    let bytes = slashed.as_str().as_bytes();
    if has_special_component(bytes) || contains_byte(bytes, COLON) {
        return Err(
            invalid_input(String::from_str("unsafe archive path: ").concat(archive_name).as_str()),
        );
    }
    Ok(slashed)
}

/// A name that is accepted for a new entry can be found again: it is normal,
/// relative, and free of NUL bytes.
pub proof fn law_archive_name_is_normal(name: Seq<char>)
    requires
        archive_name_outcome(name) is Ok,
    ensures
        ({
            let n = archive_name_outcome(name)->Ok_0;
            &&& valid_utf8(n)
            &&& is_normalized(n, false)
            &&& n.len() > 0
            &&& n[0] != SLASH
            &&& !n.contains(0u8)
        }),
{
    let raw = encode_utf8(name);
    let n = normalized(raw, false);
    encode_utf8_valid_utf8(name);
    law_normalized_valid(raw, false);
    law_normalized_is_normalized(raw, false);
    if n.len() == 0 {
        assert(is_component(n, 0, 0));
    } else if n[0] == SLASH {
        assert(is_component(n, 0, 0));
        assert(n.subrange(0, 0).len() == 0);
    }
    lemma_walk_without_nul(Seq::empty(), raw, false);
    let whole = path_walk(Seq::empty(), raw, false);
    let k = lemma_trim_spaces(whole);
    assert forall|i: int| 0 <= i < n.len() implies n[i] != 0 by {
        assert(n[i] == whole[i]);
    }
}

proof fn lemma_walk_without_nul(out: Seq<u8>, rest: Seq<u8>, lowercase: bool)
    requires
        !out.contains(0u8),
        !rest.contains(0u8),
    ensures
        !path_walk(out, rest, lowercase).contains(0u8),
    decreases rest.len(),
{
    if rest.len() > 0 {
        let next = path_step(out, rest[0], lowercase);
        assert(rest.contains(rest[0]));
        if slash_byte(rest[0]) == SLASH && ends_with_parent(out) {
            let short = out.take(out.len() - 3);
            let k = lemma_cut_to_slash(short);
            assert forall|i: int| 0 <= i < next.len() implies next[i] != 0 by {
                assert(next[i] == out[i]);
            }
        } else {
            assert forall|i: int| 0 <= i < next.len() implies next[i] != 0 by {
                if i < out.len() {
                    assert(next[i] == out[i]);
                }
            }
        }
        assert forall|i: int| 0 <= i < rest.drop_first().len() implies rest.drop_first()[i] != 0 by {
            assert(rest.drop_first()[i] == rest[i + 1]);
        }
        lemma_walk_without_nul(next, rest.drop_first(), lowercase);
    }
}

} // verus!
