//! Which names are accepted, and what is the same name.
use vstd::prelude::*;
use vstd::seq::*;
use vstd::seq_lib::*;
use vstd::utf8::*;

use crate::error::Fault;
use crate::path;

verus! {

/// A part of the path ends before `k`.
pub open spec fn ends_part(s: Seq<u8>, k: int) -> bool {
    k == s.len() || s[k] == 0x2F
}

/// The path is made of parts with a slash between them, none of which is empty, a dot
/// or two dots.
pub open spec fn is_plain_path(s: Seq<u8>) -> bool {
    &&& s.len() > 0
    &&& s[0] != 0x2F
    &&& s.last() != 0x2F
    &&& forall|j: int| 0 < j < s.len() && #[trigger] s[j] == 0x2F ==> s[j - 1] != 0x2F
    &&& forall|j: int|
        0 <= j < s.len() && #[trigger] s[j] == 0x2E && (j == 0 || s[j - 1] == 0x2F) ==> {
            &&& !ends_part(s, j + 1)
            &&& s[j + 1] == 0x2E ==> !ends_part(s, j + 2)
        }
}

/// All parts of a path are ordinary if and only if the path is plain.
pub proof fn law_ordinary_parts(s: Seq<u8>)
    ensures
        path::ordinary_components(s) <==> is_plain_path(s),
{
    if path::ordinary_components(s) {
        lemma_ordinary_is_plain(s);
    }
    if is_plain_path(s) {
        assert forall|i: int, j: int| #[trigger] path::is_component(s, i, j) implies !path::is_special(
            s.subrange(i, j),
        ) by {
            let part = s.subrange(i, j);
            if part.len() == 0 && i > 0 && i < s.len() {
                assert(s[i] == 0x2F);
            }
            if part == seq![path::DOT] {
                assert(part.len() == 1 && part[0] == 0x2E);
                assert(s[i] == 0x2E && ends_part(s, i + 1));
            }
            if part == seq![path::DOT, path::DOT] {
                assert(part.len() == 2 && part[0] == 0x2E && part[1] == 0x2E);
                assert(s[i] == 0x2E && s[i + 1] == 0x2E && ends_part(s, i + 2));
            }
        }
    }
}

proof fn lemma_ordinary_is_plain(s: Seq<u8>)
    requires
        path::ordinary_components(s),
    ensures
        is_plain_path(s),
{
    let n = s.len() as int;
    if n == 0 || s[0] == 0x2F {
        assert(path::is_component(s, 0, 0));
    }
    if n > 0 && s.last() == 0x2F {
        assert(path::is_component(s, n, n));
    }
    assert forall|j: int| 0 < j < n && #[trigger] s[j] == 0x2F implies s[j - 1] != 0x2F by {
        if s[j - 1] == 0x2F {
            assert(path::is_component(s, j, j));
        }
    }
    assert forall|j: int|
        0 <= j < n && #[trigger] s[j] == 0x2E && (j == 0 || s[j - 1] == 0x2F) implies {
        &&& !ends_part(s, j + 1)
        &&& s[j + 1] == 0x2E ==> !ends_part(s, j + 2)
    } by {
        if ends_part(s, j + 1) {
            assert(path::is_component(s, j, j + 1));
            assert(s.subrange(j, j + 1) =~= seq![path::DOT]);
        } else if s[j + 1] == 0x2E && ends_part(s, j + 2) {
            assert(path::is_component(s, j, j + 2));
            assert(s.subrange(j, j + 2) =~= seq![path::DOT, path::DOT]);
        }
    }
}

/// A name is written out below a directory if and only if it is a plain path without
/// a colon, once backslashes are taken for slashes, and then as that path.
pub proof fn law_output_path(name: Seq<char>, p: Seq<u8>)
    ensures
        path::output_path_outcome(name) == Ok::<Seq<u8>, Fault>(p) <==> {
            let raw = encode_utf8(name);
            &&& p.len() == raw.len()
            &&& forall|j: int|
                0 <= j < raw.len() ==> #[trigger] p[j] == if raw[j] == 0x5C {
                    0x2F
                } else {
                    raw[j]
                }
            &&& forall|j: int| 0 <= j < raw.len() ==> raw[j] != 0x3A
            &&& is_plain_path(p)
        },
{
    let raw = encode_utf8(name);
    let slashed = path::replaced(raw, path::BACKSLASH, path::SLASH);
    law_ordinary_parts(slashed);
    if path::output_path_outcome(name) == Ok::<Seq<u8>, Fault>(p) {
        assert forall|j: int| 0 <= j < raw.len() implies raw[j] != 0x3A by {
            if raw[j] == 0x3A {
                assert(slashed[j] == path::COLON);
            }
        }
    }
    if p.len() == raw.len() && (forall|j: int|
        0 <= j < raw.len() ==> #[trigger] p[j] == if raw[j] == 0x5C {
            0x2F
        } else {
            raw[j]
        }) {
        assert(p =~= slashed);
        if slashed.contains(path::COLON) {
            let j = choose|j: int| 0 <= j < slashed.len() && slashed[j] == path::COLON;
            assert(raw[j] == 0x3A);
        }
    }
}

/// A name is accepted for a new entry if and only if it is not empty, holds no zero,
/// and its normal form is a plain path, and then under its normal form.
pub proof fn law_archive_name(name: Seq<char>, n: Seq<u8>)
    ensures
        path::archive_name_outcome(name) == Ok::<Seq<u8>, Fault>(n) <==> {
            let raw = encode_utf8(name);
            &&& raw.len() > 0
            &&& forall|j: int| 0 <= j < raw.len() ==> raw[j] != 0
            &&& n == path::normalized(raw, false)
            &&& is_plain_path(n)
        },
{
    let raw = encode_utf8(name);
    law_ordinary_parts(path::normalized(raw, false));
    if !raw.contains(0u8) {
        assert forall|j: int| 0 <= j < raw.len() implies raw[j] != 0 by {
            assert(raw.contains(raw[j]));
        }
    }
}

proof fn lemma_walk_joined(out: Seq<u8>, a: Seq<u8>, b: Seq<u8>, lowercase: bool)
    ensures
        path::path_walk(out, a + b, lowercase) == path::path_walk(
            path::path_walk(out, a, lowercase),
            b,
            lowercase,
        ),
    decreases a.len(),
{
    if a.len() == 0 {
        assert(a + b =~= b);
    } else {
        let next = path::path_step(out, a[0], lowercase);
        assert((a + b).drop_first() =~= a.drop_first() + b);
        lemma_walk_joined(next, a.drop_first(), b, lowercase);
    }
}

proof fn lemma_walk_slashes(out: Seq<u8>, a: Seq<u8>, b: Seq<u8>, lowercase: bool)
    requires
        a.len() == b.len(),
        forall|j: int| 0 <= j < a.len() ==> path::slash_byte(#[trigger] a[j]) == path::slash_byte(b[j]),
    ensures
        path::path_walk(out, a, lowercase) == path::path_walk(out, b, lowercase),
    decreases a.len(),
{
    if a.len() > 0 {
        assert(path::slash_byte(a[0]) == path::slash_byte(b[0]));
        let x = a.drop_first();
        let y = b.drop_first();
        assert forall|j: int| 0 <= j < x.len() implies path::slash_byte(#[trigger] x[j])
            == path::slash_byte(y[j]) by {
            assert(path::slash_byte(a[j + 1]) == path::slash_byte(b[j + 1]));
        }
        lemma_walk_slashes(path::path_step(out, a[0], lowercase), x, y, lowercase);
    }
}

/// A backslash is as good as a slash.
pub proof fn law_either_slash(a: Seq<u8>, b: Seq<u8>, lowercase: bool)
    requires
        a.len() == b.len(),
        forall|j: int|
            0 <= j < a.len() ==> #[trigger] a[j] == b[j] || ((a[j] == 0x2F || a[j] == 0x5C) && (b[j]
                == 0x2F || b[j] == 0x5C)),
    ensures
        path::normalized(a, lowercase) == path::normalized(b, lowercase),
{
    assert forall|j: int| 0 <= j < a.len() implies path::slash_byte(#[trigger] a[j])
        == path::slash_byte(b[j]) by {}
    lemma_walk_slashes(Seq::empty(), a, b, lowercase);
}

/// A slash behind a slash adds nothing.
pub proof fn law_slash_again(a: Seq<u8>, b: Seq<u8>, lowercase: bool)
    requires
        a.len() == 0 || (a.last() != 0x2E && a.last() != 0x2F && a.last() != 0x5C),
    ensures
        path::normalized(a + seq![0x2Fu8, 0x2Fu8] + b, lowercase) == path::normalized(
            a + seq![0x2Fu8] + b,
            lowercase,
        ),
{
    let one = seq![0x2Fu8];
    let start = path::path_walk(Seq::empty(), a, lowercase);
    lemma_walk_joined(Seq::empty(), a, one, lowercase);
    lemma_walk_joined(Seq::empty(), a + one, one, lowercase);
    assert(a + one + one =~= a + seq![0x2Fu8, 0x2Fu8]);
    lemma_walk_joined(Seq::empty(), a + one, b, lowercase);
    lemma_walk_joined(Seq::empty(), a + one + one, b, lowercase);
    reveal_with_fuel(path::path_walk, 2);
    assert(one.drop_first() =~= Seq::empty());
    let once = path::path_walk(start, one, lowercase);
    if a.len() == 0 {
        assert(start =~= Seq::empty());
    } else {
        let n = a.len() - 1;
        lemma_walk_joined(Seq::empty(), a.take(n), seq![a.last()], lowercase);
        assert(a =~= a.take(n) + seq![a.last()]);
        assert(seq![a.last()].drop_first() =~= Seq::empty());
        let before = path::path_walk(Seq::empty(), a.take(n), lowercase);
        assert(start == path::path_step(before, a.last(), lowercase));
        assert(start.last() != 0x2E && start.last() != 0x2F);
    }
    assert(once =~= start.push(0x2F));
    assert(path::path_step(once, 0x2F, lowercase) == once);
}

/// The normal form in lower case is the normal form with its capital letters in lower
/// case.
pub proof fn law_lowered(p: Seq<u8>)
    ensures
        path::normalized(p, true) == path::lower_bytes(path::normalized(p, false)),
{
    assert(path::lower_bytes(Seq::empty()) =~= Seq::empty());
    lemma_walk_lowers(Seq::empty(), Seq::empty(), p);
    lemma_trim_lowers(path::path_walk(Seq::empty(), p, false));
}

proof fn lemma_walk_lowers(out: Seq<u8>, low: Seq<u8>, rest: Seq<u8>)
    requires
        low == path::lower_bytes(out),
    ensures
        path::path_walk(low, rest, true) == path::lower_bytes(path::path_walk(out, rest, false)),
    decreases rest.len(),
{
    if rest.len() > 0 {
        let next = path::path_step(out, rest[0], false);
        let lowered = path::path_step(low, rest[0], true);
        if path::ends_with_parent(out) {
            lemma_cut_lowers(out.take(out.len() - 3));
            assert(low.take(low.len() - 3) =~= path::lower_bytes(out.take(out.len() - 3)));
        }
        assert(lowered =~= path::lower_bytes(next));
        lemma_walk_lowers(next, lowered, rest.drop_first());
    }
}

proof fn lemma_cut_lowers(s: Seq<u8>)
    ensures
        path::cut_to_slash(path::lower_bytes(s)) == path::lower_bytes(path::cut_to_slash(s)),
    decreases s.len(),
{
    if s.len() > 0 && s.last() != path::SLASH {
        lemma_cut_lowers(s.drop_last());
        assert(path::lower_bytes(s).drop_last() =~= path::lower_bytes(s.drop_last()));
    }
}

proof fn lemma_trim_lowers(s: Seq<u8>)
    ensures
        path::trim_spaces(path::lower_bytes(s)) == path::lower_bytes(path::trim_spaces(s)),
    decreases s.len(),
{
    if s.len() > 0 && s.last() == path::SPACE {
        lemma_trim_lowers(s.drop_last());
        assert(path::lower_bytes(s).drop_last() =~= path::lower_bytes(s.drop_last()));
    }
}

/// A part of a path: it is not empty, holds neither slash nor backslash, and does not
/// end in a dot.
pub open spec fn is_part(part: Seq<u8>) -> bool {
    &&& part.len() > 0
    &&& part.last() != 0x2E
    &&& forall|j: int| 0 <= j < part.len() ==> part[j] != 0x2F && part[j] != 0x5C
}

/// The path is empty, or it is normal and ends in a slash.
pub open spec fn is_front(front: Seq<u8>) -> bool {
    &&& front.len() > 0 ==> front.last() == 0x2F
    &&& forall|j: int| 0 <= j < front.len() ==> front[j] != 0x5C
    &&& forall|j: int|
        0 < j < front.len() && #[trigger] front[j] == 0x2F ==> front[j - 1] != 0x2F && front[j - 1]
            != 0x2E
}

proof fn lemma_walk_part(out: Seq<u8>, part: Seq<u8>)
    requires
        forall|j: int| 0 <= j < part.len() ==> part[j] != 0x2F && part[j] != 0x5C,
    ensures
        path::path_walk(out, part, false) == out + part,
    decreases part.len(),
{
    if part.len() == 0 {
        assert(out + part =~= out);
    } else {
        assert(part[0] != 0x2F && part[0] != 0x5C);
        let next = out.push(part[0]);
        lemma_walk_part(next, part.drop_first());
        assert(next + part.drop_first() =~= out + part);
    }
}

proof fn lemma_walk_front(front: Seq<u8>)
    requires
        is_front(front),
    ensures
        path::path_walk(Seq::empty(), front, false) == front,
{
    lemma_walk_settled_front(front, front.len());
    assert(front.take(front.len() as int) =~= front);
}

proof fn lemma_walk_settled_front(front: Seq<u8>, k: nat)
    requires
        is_front(front),
        k <= front.len(),
    ensures
        path::path_walk(Seq::empty(), front.take(k as int), false) == front.take(k as int),
    decreases k,
{
    if k == 0 {
        assert(front.take(0) =~= Seq::empty());
    } else {
        let n = (k - 1) as nat;
        let before = front.take(n as int);
        let byte = front[n as int];
        lemma_walk_settled_front(front, n);
        assert(front.take(k as int) =~= before + seq![byte]);
        lemma_walk_joined(Seq::empty(), before, seq![byte], false);
        reveal_with_fuel(path::path_walk, 2);
        assert(seq![byte].drop_first() =~= Seq::empty());
        assert(byte != 0x5C);
        if byte == 0x2F && n > 0 {
            assert(front[n - 1] != 0x2F && front[n - 1] != 0x2E);
        }
        assert(path::path_step(before, byte, false) =~= front.take(k as int));
    }
}

/// Two dots take back the part before them.
pub proof fn law_parent_part(front: Seq<u8>, part: Seq<u8>, rest: Seq<u8>)
    requires
        is_front(front),
        is_part(part),
    ensures
        path::normalized(front + part + seq![0x2Fu8, 0x2Eu8, 0x2Eu8, 0x2Fu8] + rest, false)
            == path::normalized(front + rest, false),
{
    let up = seq![0x2Fu8, 0x2Eu8, 0x2Eu8, 0x2Fu8];
    lemma_walk_front(front);
    lemma_walk_joined(Seq::empty(), front, rest, false);
    lemma_walk_joined(Seq::empty(), front, part, false);
    lemma_walk_joined(Seq::empty(), front + part, up, false);
    lemma_walk_joined(Seq::empty(), front + part + up, rest, false);
    lemma_walk_part(front, part);
    let a = front + part;
    assert(a.last() == part.last());
    let b = a.push(0x2F);
    let c = b.push(0x2E);
    let d = c.push(0x2E);
    assert(path::path_step(a, 0x2F, false) =~= b);
    assert(path::path_step(b, 0x2E, false) =~= c);
    assert(path::path_step(c, 0x2E, false) =~= d);
    assert(path::ends_with_parent(d));
    assert(d.take(d.len() - 3) =~= a);
    lemma_cut(front, part);
    assert(path::path_step(d, 0x2F, false) == front);
    reveal_with_fuel(path::path_walk, 5);
    let u1 = up.drop_first();
    let u2 = u1.drop_first();
    let u3 = u2.drop_first();
    let u4 = u3.drop_first();
    assert(u1[0] == 0x2E && u2[0] == 0x2E && u3[0] == 0x2F && u4.len() == 0);
    assert(path::path_walk(d, u3, false) == front);
    assert(path::path_walk(c, u2, false) == front);
    assert(path::path_walk(b, u1, false) == front);
    assert(path::path_walk(a, up, false) == front);
}

proof fn lemma_cut(front: Seq<u8>, part: Seq<u8>)
    requires
        front.len() > 0 ==> front.last() == 0x2F,
        forall|j: int| 0 <= j < part.len() ==> part[j] != 0x2F && part[j] != 0x5C,
    ensures
        path::cut_to_slash(front + part) == front,
    decreases part.len(),
{
    let s = front + part;
    if part.len() == 0 {
        assert(s =~= front);
    } else {
        assert(s.last() == part.last());
        assert(s.drop_last() =~= front + part.drop_last());
        lemma_cut(front, part.drop_last());
    }
}

/// A single dot in place of a part adds nothing, and neither does one in front.
pub proof fn law_dot_part(front: Seq<u8>, rest: Seq<u8>)
    requires
        is_front(front),
    ensures
        path::normalized(front + seq![0x2Eu8, 0x2Fu8] + rest, false) == path::normalized(
            front + rest,
            false,
        ),
{
    let dot = seq![0x2Eu8, 0x2Fu8];
    lemma_walk_front(front);
    lemma_walk_joined(Seq::empty(), front, rest, false);
    lemma_walk_joined(Seq::empty(), front, dot, false);
    lemma_walk_joined(Seq::empty(), front + dot, rest, false);
    let a = front.push(0x2E);
    assert(path::path_step(front, 0x2E, false) =~= a);
    assert(path::path_step(a, 0x2F, false) =~= front);
    reveal_with_fuel(path::path_walk, 3);
    let d1 = dot.drop_first();
    assert(d1[0] == 0x2F && d1.drop_first().len() == 0);
    assert(path::path_walk(a, d1, false) == front);
}

/// Spaces at the end are left out.
pub proof fn law_trailing_space(p: Seq<u8>, lowercase: bool)
    ensures
        path::normalized(p.push(0x20), lowercase) == path::normalized(p, lowercase),
{
    lemma_walk_joined(Seq::empty(), p, seq![0x20u8], lowercase);
    assert(p.push(0x20) =~= p + seq![0x20u8]);
    reveal_with_fuel(path::path_walk, 2);
    assert(seq![0x20u8].drop_first() =~= Seq::empty());
    let out = path::path_walk(Seq::empty(), p, lowercase);
    assert(out.push(0x20).drop_last() =~= out);
}

} // verus!
