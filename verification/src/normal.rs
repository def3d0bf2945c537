//! Paths in normal form: two texts name the same path, as `Path` compares
//! them component by component, exactly when their normal forms are equal.
//! Repeated separators, a trailing separator and `.` components (other than
//! a leading one) are dropped.

use vstd::prelude::*;

use crate::url::{last_of, last_sep, lemma_last_of, texts};

verus! {

/// The segments of `p` between its separators, in order (one more than the
/// separators; empty where two separators meet or at either end).
pub open spec fn segments(p: Seq<char>) -> Seq<Seq<char>>
    decreases p.len(),
{
    if last_sep(p) < 0 {
        seq![p]
    } else {
        proof {
            lemma_last_of(p, '/');
        }
        segments(p.take(last_sep(p))).push(p.skip(last_sep(p) + 1))
    }
}

/// Whether a segment is a component kept in the normal form: not empty,
/// and not `.`.
pub open spec fn is_kept(s: Seq<char>) -> bool {
    s.len() > 0 && s != seq!['.']
}

/// `r` with the segment `s` appended when it is kept.
pub open spec fn kept_step(r: Seq<char>, s: Seq<char>) -> Seq<char> {
    if !is_kept(s) {
        r
    } else if r.len() == 0 {
        s
    } else {
        r + seq!['/'] + s
    }
}

/// The kept segments of `ss`, joined by separators.
pub open spec fn kept_join(ss: Seq<Seq<char>>) -> Seq<char>
    decreases ss.len(),
{
    if ss.len() == 0 {
        Seq::empty()
    } else {
        kept_step(kept_join(ss.drop_last()), ss.last())
    }
}

/// The kept segments of `ss`, in order.
pub open spec fn keep(ss: Seq<Seq<char>>) -> Seq<Seq<char>>
    decreases ss.len(),
{
    if ss.len() == 0 {
        Seq::empty()
    } else if is_kept(ss.last()) {
        keep(ss.drop_last()).push(ss.last())
    } else {
        keep(ss.drop_last())
    }
}

/// Whether `p` begins with the component `.`.
pub open spec fn starts_with_dot(p: Seq<char>) -> bool {
    p.len() > 0 && p[0] == '.' && (p.len() == 1 || p[1] == '/')
}

/// The normal form of the path `p`: `/` for an absolute path, `.` for one
/// that begins with the component `.`, then its other components joined by
/// single separators.
pub open spec fn normal(p: Seq<char>) -> Seq<char> {
    let j = kept_join(segments(p));
    if p.len() > 0 && p[0] == '/' {
        seq!['/'] + j
    } else if starts_with_dot(p) {
        if j.len() == 0 {
            seq!['.']
        } else {
            seq!['.', '/'] + j
        }
    } else {
        j
    }
}

/// The normal forms of the paths `s`.
pub open spec fn normals(s: Seq<Seq<char>>) -> Seq<Seq<char>> {
    s.map_values(|p: Seq<char>| normal(p))
}

/// Whether `x` holds no separator.
pub open spec fn no_sep(x: Seq<char>) -> bool {
    forall|k: int| 0 <= k < x.len() ==> x[k] != '/'
}

/// There is always a segment, and none holds a separator.
pub proof fn lemma_segments(p: Seq<char>)
    ensures
        segments(p).len() >= 1,
        forall|i: int| 0 <= i < segments(p).len() ==> no_sep(#[trigger] segments(p)[i]),
        segments(p).last() == p.subrange(last_sep(p) + 1, p.len() as int),
    decreases p.len(),
{
    lemma_last_of(p, '/');
    if last_sep(p) >= 0 {
        let k = last_sep(p);
        lemma_segments(p.take(k));
        assert forall|i: int| 0 <= i < segments(p).len() implies no_sep(#[trigger] segments(p)[i]) by {
            if i == segments(p).len() - 1 {
                assert(segments(p)[i] == p.skip(k + 1));
                assert forall|m: int| 0 <= m < p.skip(k + 1).len() implies #[trigger] p.skip(k + 1)[m] != '/' by {
                    assert(p.skip(k + 1)[m] == p[k + 1 + m]);
                }
            } else {
                assert(segments(p)[i] == segments(p.take(k))[i]);
            }
        }
        assert(p.skip(k + 1) =~= p.subrange(k + 1, p.len() as int));
    } else {
        assert(p =~= p.subrange(0, p.len() as int));
        assert(segments(p)[0] == p);
    }
}

/// The segments after one more character.
pub proof fn lemma_segments_push(q: Seq<char>, c: char)
    ensures
        c == '/' ==> segments(q.push(c)) == segments(q).push(Seq::empty()),
        c != '/' ==> segments(q.push(c)) == segments(q).drop_last().push(segments(q).last().push(c)),
{
    let x = q.push(c);
    lemma_last_of(q, '/');
    assert(x.drop_last() =~= q);
    if c == '/' {
        assert(x.take(q.len() as int) =~= q);
        assert(x.skip(q.len() as int + 1) =~= Seq::<char>::empty());
    } else {
        let k = last_sep(q);
        assert(last_sep(x) == k);
        if k >= 0 {
            assert(x.take(k) =~= q.take(k));
            assert(x.skip(k + 1) =~= q.skip(k + 1).push(c));
        } else {
            assert(segments(q) == seq![q]);
        }
    }
}

/// The segments of two paths joined by a separator.
pub proof fn lemma_segments_concat(a: Seq<char>, b: Seq<char>)
    ensures
        segments(a + seq!['/'] + b) == segments(a) + segments(b),
    decreases b.len(),
{
    let x = a + seq!['/'] + b;
    lemma_last_of(b, '/');
    lemma_last_of(x, '/');
    if last_sep(b) < 0 {
        lemma_last_of_at_concat(a, b);
        assert(x.take(a.len() as int) =~= a);
        assert(x.skip(a.len() as int + 1) =~= b);
        assert(segments(b) == seq![b]);
        assert(segments(a).push(b) =~= segments(a) + seq![b]);
    } else {
        let k = last_sep(b);
        lemma_last_of_at_concat(a, b);
        lemma_segments_concat(a, b.take(k));
        assert(x.take(a.len() + 1 + k) =~= a + seq!['/'] + b.take(k));
        assert(x.skip(a.len() + 1 + k + 1) =~= b.skip(k + 1));
        assert((segments(a) + segments(b.take(k))).push(b.skip(k + 1)) =~= segments(a) + segments(
            b.take(k),
        ).push(b.skip(k + 1)));
    }
}

proof fn lemma_last_of_at_concat(a: Seq<char>, b: Seq<char>)
    ensures
        last_sep(a + seq!['/'] + b) == if last_sep(b) < 0 {
            a.len() as int
        } else {
            a.len() + 1 + last_sep(b)
        },
{
    let x = a + seq!['/'] + b;
    lemma_last_of(b, '/');
    let k = if last_sep(b) < 0 {
        a.len() as int
    } else {
        a.len() + 1 + last_sep(b)
    };
    assert forall|j: int| k < j < x.len() implies x[j] != '/' by {
        assert(x[j] == b[j - a.len() - 1]);
    }
    crate::url::lemma_last_of_at(x, '/', k);
}

/// A text without separators is a single segment.
pub proof fn lemma_segments_no_sep(x: Seq<char>)
    requires
        no_sep(x),
    ensures
        segments(x) == seq![x],
{
    lemma_last_of(x, '/');
    if last_sep(x) >= 0 {
        assert(x[last_sep(x)] == '/');
    }
}

/// A single segment joined: itself if kept, else nothing.
proof fn lemma_kept_join_single(x: Seq<char>)
    ensures
        kept_join(seq![x]) == (if is_kept(x) {
            x
        } else {
            Seq::<char>::empty()
        }),
{
    assert(seq![x].drop_last() =~= Seq::<Seq<char>>::empty());
    assert(seq![x].last() == x);
    assert(kept_join(Seq::<Seq<char>>::empty()) == Seq::<char>::empty());
    assert(kept_join(seq![x]) == kept_step(kept_join(seq![x].drop_last()), seq![x].last()));
}

/// Unkept segments in front change nothing.
proof fn lemma_kept_join_unkept_front(u: Seq<char>, b: Seq<Seq<char>>)
    requires
        !is_kept(u),
    ensures
        kept_join(seq![u] + b) == kept_join(b),
    decreases b.len(),
{
    if b.len() == 0 {
        assert(seq![u] + b =~= seq![u]);
        assert(seq![u].drop_last() =~= Seq::<Seq<char>>::empty());
        assert(seq![u].last() == u);
        assert(kept_join(Seq::<Seq<char>>::empty()) == Seq::<char>::empty());
        assert(kept_join(seq![u]) == kept_step(kept_join(seq![u].drop_last()), seq![u].last()));
    } else {
        lemma_kept_join_unkept_front(u, b.drop_last());
        assert((seq![u] + b).drop_last() =~= seq![u] + b.drop_last());
        assert((seq![u] + b).last() == b.last());
        assert(kept_join(seq![u] + b) == kept_step(
            kept_join((seq![u] + b).drop_last()),
            (seq![u] + b).last(),
        ));
    }
}

/// What `kept_join` builds: empty exactly when nothing is kept, and
/// otherwise a text whose segments are the kept ones.
proof fn lemma_kept_join(ss: Seq<Seq<char>>)
    requires
        forall|i: int| 0 <= i < ss.len() ==> no_sep(#[trigger] ss[i]),
    ensures
        kept_join(ss).len() == 0 <==> keep(ss).len() == 0,
        kept_join(ss).len() > 0 ==> segments(kept_join(ss)) == keep(ss),
        kept_join(keep(ss)) == kept_join(ss),
        forall|i: int| 0 <= i < keep(ss).len() ==> is_kept(#[trigger] keep(ss)[i]) && no_sep(
            keep(ss)[i],
        ),
    decreases ss.len(),
{
    if ss.len() > 0 {
        let t = ss.drop_last();
        let x = ss.last();
        assert(no_sep(ss[ss.len() - 1]));
        lemma_kept_join(t);
        let r = kept_join(t);
        if is_kept(x) {
            assert(keep(ss).drop_last() =~= keep(t));
            if r.len() == 0 {
                lemma_segments_no_sep(x);
                assert(keep(t) =~= Seq::<Seq<char>>::empty());
                assert(keep(ss) =~= seq![x]);
            } else {
                lemma_segments_concat(r, x);
                lemma_segments_no_sep(x);
                assert(keep(t).push(x) =~= keep(t) + seq![x]);
            }
        }
    }
}

/// The normal form of a normal form is itself.
pub proof fn lemma_normal_idempotent(p: Seq<char>)
    ensures
        normal(normal(p)) == normal(p),
{
    let ss = segments(p);
    lemma_segments(p);
    lemma_kept_join(ss);
    let j = kept_join(ss);
    let q = normal(p);
    if j.len() > 0 {
        lemma_segments(j);
        lemma_first_segment(j);
        let k0 = keep(ss)[0];
        assert(segments(j)[0] == k0);
        assert(is_kept(k0) && no_sep(k0));
    }
    if p.len() > 0 && p[0] == '/' {
        assert(q == seq!['/'] + j);
        assert(q =~= Seq::<char>::empty() + seq!['/'] + j);
        lemma_segments_concat(Seq::empty(), j);
        assert(segments(Seq::<char>::empty()) == seq![Seq::<char>::empty()]);
        lemma_kept_join_unkept_front(Seq::empty(), segments(j));
        if j.len() == 0 {
            lemma_segments_no_sep(j);
            assert(seq![j].drop_last() =~= Seq::<Seq<char>>::empty());
            assert(seq![j].last() == j);
            assert(kept_join(Seq::<Seq<char>>::empty()) == Seq::<char>::empty());
            assert(kept_join(seq![j]) == kept_step(kept_join(seq![j].drop_last()), seq![j].last()));
            assert(kept_join(seq![j]) =~= Seq::<char>::empty());
        }
    } else if starts_with_dot(p) {
        if j.len() == 0 {
            assert(q == seq!['.']);
            lemma_segments_no_sep(seq!['.']);
            lemma_kept_join_single(seq!['.']);
            assert(normal(q) =~= seq!['.']);
        } else {
            assert(q =~= seq!['.'] + seq!['/'] + j);
            lemma_segments_concat(seq!['.'], j);
            lemma_segments_no_sep(seq!['.']);
            lemma_kept_join_unkept_front(seq!['.'], segments(j));
            assert(starts_with_dot(q));
        }
    } else {
        assert(q == j);
        if j.len() == 0 {
            assert(segments(j) == seq![j]) by {
                lemma_segments_no_sep(j);
            }
            lemma_kept_join_single(j);
        } else {
            let k0 = keep(ss)[0];
            assert(k0.len() > 0);
            assert(j[0] == segments(j)[0][0]);
            assert(no_sep(k0));
            assert(k0[0] != '/');
            assert(j[0] != '/');
            assert(!starts_with_dot(j)) by {
                if starts_with_dot(j) {
                    if j.len() == 1 {
                        assert(k0.len() == 1 && k0[0] == '.');
                        assert(k0 =~= seq!['.']);
                    } else {
                        assert(k0[0] == '.');
                        if k0.len() == 1 {
                            assert(k0 =~= seq!['.']);
                        } else {
                            assert(k0[1] == j[1]);
                        }
                    }
                }
            }
        }
    }
}

/// The first segment is the text before the first separator.
pub proof fn lemma_first_segment(x: Seq<char>)
    ensures
        segments(x)[0].len() <= x.len(),
        forall|k: int| 0 <= k < segments(x)[0].len() ==> x[k] == #[trigger] segments(x)[0][k],
        segments(x)[0].len() < x.len() ==> x[segments(x)[0].len() as int] == '/',
    decreases x.len(),
{
    lemma_last_of(x, '/');
    lemma_segments(x);
    if last_sep(x) >= 0 {
        let k = last_sep(x);
        lemma_first_segment(x.take(k));
        lemma_segments(x.take(k));
        assert(segments(x)[0] == segments(x.take(k))[0]);
    }
}

fn is_kept_exec(s: &str) -> (res: bool)
    ensures
        res == is_kept(s@),
{
    let n = s.unicode_len();
    if n == 0 {
        return false;
    }
    if n == 1 && s.get_char(0) == '.' {
        assert(s@ =~= seq!['.']);
        return false;
    }
    assert(s@ != seq!['.']) by {
        if s@ == seq!['.'] {
            assert(s@[0] == '.');
        }
    }
    true
}

fn push_kept(out: &mut String, seg: &str)
    ensures
        final(out)@ == kept_step(old(out)@, seg@),
{
    if is_kept_exec(seg) {
        if out.as_str().unicode_len() > 0 {
            proof {
                reveal_strlit("/");
            }
            out.append("/");
        }
        out.append(seg);
    }
}

/// The normal form of the path `p` (see `normal`).
pub fn normalize(p: &str) -> (res: String)
    ensures
        res@ == normal(p@),
{
    let n = p.unicode_len();
    let mut out = String::new();
    let mut start: usize = 0;
    let mut i: usize = 0;
    proof {
        assert(p@.take(0) =~= Seq::<char>::empty());
        lemma_last_of(Seq::<char>::empty(), '/');
        assert(segments(Seq::<char>::empty()) == seq![Seq::<char>::empty()]);
        assert(seq![Seq::<char>::empty()].drop_last() =~= Seq::<Seq<char>>::empty());
        assert(p@.subrange(0, 0) =~= Seq::<char>::empty());
    }
    while i < n
        invariant
            n == p@.len(),
            start <= i <= n,
            segments(p@.take(i as int)).len() >= 1,
            segments(p@.take(i as int)).last() == p@.subrange(start as int, i as int),
            out@ == kept_join(segments(p@.take(i as int)).drop_last()),
        decreases n - i,
    {
        let c = p.get_char(i);
        proof {
            assert(p@.take(i + 1) =~= p@.take(i as int).push(c));
            lemma_segments_push(p@.take(i as int), c);
        }
        if c == '/' {
            let seg = p.substring_char(start, i);
            push_kept(&mut out, seg);
            proof {
                let s = segments(p@.take(i as int));
                assert(s.push(Seq::empty()).drop_last() =~= s);
                assert(s.drop_last().push(s.last()) =~= s);
                assert(p@.subrange(i + 1, i + 1) =~= Seq::<char>::empty());
            }
            start = i + 1;
        } else {
            proof {
                let s = segments(p@.take(i as int));
                assert(s.drop_last().push(s.last().push(c)).drop_last() =~= s.drop_last());
                assert(p@.subrange(start as int, i + 1) =~= p@.subrange(start as int, i as int).push(
                    c,
                ));
            }
        }
        i = i + 1;
    }
    let last = p.substring_char(start, n);
    push_kept(&mut out, last);
    proof {
        assert(p@.take(n as int) =~= p@);
        let s = segments(p@);
        assert(s.drop_last().push(s.last()) =~= s);
    }
    if n > 0 && p.get_char(0) == '/' {
        let mut r = String::from_str("/");
        proof {
            reveal_strlit("/");
        }
        r.append(out.as_str());
        assert(r@ =~= seq!['/'] + out@);
        r
    } else if n > 0 && p.get_char(0) == '.' && (n == 1 || p.get_char(1) == '/') {
        if out.as_str().unicode_len() == 0 {
            proof {
                reveal_strlit(".");
            }
            let r = String::from_str(".");
            assert(r@ =~= seq!['.']);
            r
        } else {
            proof {
                reveal_strlit("./");
            }
            let mut r = String::from_str("./");
            r.append(out.as_str());
            assert(r@ =~= seq!['.', '/'] + out@);
            r
        }
    } else {
        out
    }
}

/// Whether every path of `s` is in normal form.
pub open spec fn all_normal(s: Seq<Seq<char>>) -> bool {
    forall|x: Seq<char>| s.contains(x) ==> normal(x) == x
}

/// Normal forms are in normal form.
pub proof fn lemma_normals_all_normal(s: Seq<Seq<char>>)
    ensures
        all_normal(normals(s)),
        normals(s).len() == s.len(),
{
    assert forall|x: Seq<char>| normals(s).contains(x) implies normal(x) == x by {
        let k = choose|k: int| 0 <= k < normals(s).len() && normals(s)[k] == x;
        lemma_normal_idempotent(s[k]);
    }
}

/// Paths already in normal form are their own normal forms.
pub proof fn lemma_normals_fixed(x: Seq<Seq<char>>)
    requires
        all_normal(x),
    ensures
        normals(x) == x,
{
    assert forall|i: int| 0 <= i < x.len() implies #[trigger] normals(x)[i] == x[i] by {
        assert(x.contains(x[i]));
    }
    assert(normals(x) =~= x);
}

/// The normal forms of the paths `urls`.
pub fn normalize_all(urls: &[String]) -> (res: Vec<String>)
    ensures
        texts(res@) == normals(texts(urls@)),
{
    let mut res: Vec<String> = Vec::new();
    let mut i: usize = 0;
    while i < urls.len()
        invariant
            i <= urls@.len(),
            res@.len() == i,
            texts(res@) == normals(texts(urls@)).take(i as int),
        decreases urls@.len() - i,
    {
        let n = normalize(urls[i].as_str());
        res.push(n);
        proof {
            assert forall|k: int| 0 <= k < i + 1 implies #[trigger] texts(res@)[k] == normals(
                texts(urls@),
            ).take(i + 1)[k] by {
                if k < i {
                    assert(texts(res@)[k] == res@[k]@);
                }
            }
            assert(texts(res@) =~= normals(texts(urls@)).take(i + 1));
        }
        i = i + 1;
    }
    assert(normals(texts(urls@)).take(urls@.len() as int) =~= normals(texts(urls@)));
    res
}

} // verus!
