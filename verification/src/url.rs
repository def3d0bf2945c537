use vstd::prelude::*;

verus! {

/// The order of characters in a path: the separator `/` sorts before every
/// other character, the others sort by code point. Comparing the text of two
/// normalised paths this way compares them component by component, as
/// `Path` does.
pub open spec fn char_lt(x: char, y: char) -> bool {
    x != y && (x == '/' || (y != '/' && (x as int) < (y as int)))
}

/// The strict path order on the text of two paths: lexicographic over the
/// characters' ranks, a proper prefix sorting first.
pub open spec fn path_lt(a: Seq<char>, b: Seq<char>) -> bool
    decreases a.len(),
{
    if a.len() == 0 {
        b.len() > 0
    } else if b.len() == 0 {
        false
    } else if a[0] != b[0] {
        char_lt(a[0], b[0])
    } else {
        path_lt(a.drop_first(), b.drop_first())
    }
}

/// No path sorts before itself.
pub proof fn lemma_path_lt_irreflexive(a: Seq<char>)
    ensures
        !path_lt(a, a),
    decreases a.len(),
{
    if a.len() > 0 {
        lemma_path_lt_irreflexive(a.drop_first());
    }
}

/// The path order is transitive.
pub proof fn lemma_path_lt_transitive(a: Seq<char>, b: Seq<char>, c: Seq<char>)
    requires
        path_lt(a, b),
        path_lt(b, c),
    ensures
        path_lt(a, c),
    decreases a.len(),
{
    if a.len() > 0 && b.len() > 0 && c.len() > 0 {
        if a[0] == b[0] && b[0] == c[0] {
            lemma_path_lt_transitive(a.drop_first(), b.drop_first(), c.drop_first());
        }
    }
}

/// Two different paths are ordered one way or the other.
pub proof fn lemma_path_lt_total(a: Seq<char>, b: Seq<char>)
    requires
        a != b,
    ensures
        path_lt(a, b) || path_lt(b, a),
    decreases a.len(),
{
    if a.len() > 0 && b.len() > 0 && a[0] == b[0] {
        if a.drop_first() == b.drop_first() {
            assert(a =~= seq![a[0]] + a.drop_first());
            assert(b =~= seq![b[0]] + b.drop_first());
        }
        lemma_path_lt_total(a.drop_first(), b.drop_first());
    } else if a.len() == 0 && b.len() == 0 {
        assert(a =~= b);
    } else if a.len() > 0 && b.len() > 0 {
        assert(a[0] as int != b[0] as int);
    }
}

/// The path order never holds both ways.
pub proof fn lemma_path_lt_asymmetric(a: Seq<char>, b: Seq<char>)
    requires
        path_lt(a, b),
    ensures
        !path_lt(b, a),
{
    if path_lt(b, a) {
        lemma_path_lt_transitive(a, b, a);
        lemma_path_lt_irreflexive(a);
    }
}

proof fn lemma_path_lt_skip(a: Seq<char>, b: Seq<char>, i: int)
    requires
        0 <= i < a.len(),
        i < b.len(),
        a[i] == b[i],
    ensures
        path_lt(a.skip(i), b.skip(i)) == path_lt(a.skip(i + 1), b.skip(i + 1)),
{
    assert(a.skip(i).drop_first() =~= a.skip(i + 1));
    assert(b.skip(i).drop_first() =~= b.skip(i + 1));
}

/// Whether the path `a` sorts strictly before the path `b`.
pub fn path_less(a: &str, b: &str) -> (res: bool)
    ensures
        res == path_lt(a@, b@),
{
    let la = a.unicode_len();
    let lb = b.unicode_len();
    let mut i: usize = 0;
    assert(a@.skip(0) =~= a@);
    assert(b@.skip(0) =~= b@);
    while i < la && i < lb
        invariant
            la == a@.len(),
            lb == b@.len(),
            i <= la,
            i <= lb,
            path_lt(a@, b@) == path_lt(a@.skip(i as int), b@.skip(i as int)),
        decreases la - i,
    {
        let ca = a.get_char(i);
        let cb = b.get_char(i);
        if ca != cb {
            assert(a@.skip(i as int)[0] == ca);
            assert(b@.skip(i as int)[0] == cb);
            if ca == '/' {
                return true;
            } else if cb == '/' {
                return false;
            } else {
                return ca < cb;
            }
        }
        proof {
            lemma_path_lt_skip(a@, b@, i as int);
        }
        i = i + 1;
    }
    i == la && i < lb
}


/// The texts of a sequence of strings.
pub open spec fn texts(v: Seq<String>) -> Seq<Seq<char>> {
    v.map_values(|s: String| s@)
}

/// The text of an optional string.
pub open spec fn opt_text(o: Option<String>) -> Option<Seq<char>> {
    match o {
        Some(s) => Some(s@),
        None => None,
    }
}

/// Whether `y` lies strictly after `bound` (any `y`, without a bound).
pub open spec fn above(bound: Option<Seq<char>>, y: Seq<char>) -> bool {
    match bound {
        Some(b) => path_lt(b, y),
        None => true,
    }
}

/// Whether `y` lies strictly before `bound` (any `y`, without a bound).
pub open spec fn below(bound: Option<Seq<char>>, y: Seq<char>) -> bool {
    match bound {
        Some(b) => path_lt(y, b),
        None => true,
    }
}

/// `x` is the first item of `s` after `bound` in path order.
pub open spec fn is_least_above(s: Seq<Seq<char>>, bound: Option<Seq<char>>, x: Seq<char>) -> bool {
    &&& s.contains(x)
    &&& above(bound, x)
    &&& forall|y: Seq<char>| s.contains(y) && above(bound, y) && y != x ==> path_lt(x, y)
}

/// `x` is the last item of `s` before `bound` in path order.
pub open spec fn is_greatest_below(s: Seq<Seq<char>>, bound: Option<Seq<char>>, x: Seq<char>) -> bool {
    &&& s.contains(x)
    &&& below(bound, x)
    &&& forall|y: Seq<char>| s.contains(y) && below(bound, y) && y != x ==> path_lt(y, x)
}

/// The first item of `s` after `bound` in path order, if there is one.
pub open spec fn least_above(s: Seq<Seq<char>>, bound: Option<Seq<char>>) -> Option<Seq<char>> {
    if exists|x: Seq<char>| is_least_above(s, bound, x) {
        Some(choose|x: Seq<char>| is_least_above(s, bound, x))
    } else {
        None
    }
}

/// The last item of `s` before `bound` in path order, if there is one.
pub open spec fn greatest_below(s: Seq<Seq<char>>, bound: Option<Seq<char>>) -> Option<Seq<char>> {
    if exists|x: Seq<char>| is_greatest_below(s, bound, x) {
        Some(choose|x: Seq<char>| is_greatest_below(s, bound, x))
    } else {
        None
    }
}

/// The first item after `bound` is unique, and is what `least_above` names.
pub proof fn lemma_least_above_unique(s: Seq<Seq<char>>, bound: Option<Seq<char>>, x: Seq<char>)
    requires
        is_least_above(s, bound, x),
    ensures
        least_above(s, bound) == Some(x),
{
    let y = choose|y: Seq<char>| is_least_above(s, bound, y);
    if y != x {
        lemma_path_lt_asymmetric(x, y);
    }
}

/// The last item before `bound` is unique, and is what `greatest_below`
/// names.
pub proof fn lemma_greatest_below_unique(s: Seq<Seq<char>>, bound: Option<Seq<char>>, x: Seq<char>)
    requires
        is_greatest_below(s, bound, x),
    ensures
        greatest_below(s, bound) == Some(x),
{
    let y = choose|y: Seq<char>| is_greatest_below(s, bound, y);
    if y != x {
        lemma_path_lt_asymmetric(x, y);
    }
}

/// Some item of `s` after `bound` means a first one.
pub proof fn lemma_least_above_exists(s: Seq<Seq<char>>, bound: Option<Seq<char>>, w: Seq<char>)
    requires
        s.contains(w),
        above(bound, w),
    ensures
        least_above(s, bound) is Some,
        is_least_above(s, bound, least_above(s, bound)->0),
    decreases s.len(),
{
    let t = s.drop_last();
    crate::seqs::lemma_contains_split(s);
    let l = s.last();
    if exists|v: Seq<char>| t.contains(v) && above(bound, v) {
        let v = choose|v: Seq<char>| t.contains(v) && above(bound, v);
        lemma_least_above_exists(t, bound, v);
        let m = least_above(t, bound)->0;
        if above(bound, l) && l != m && path_lt(l, m) {
            assert forall|y: Seq<char>| s.contains(y) && above(bound, y) && y != l implies path_lt(
                l,
                y,
            ) by {
                if y != m {
                    lemma_path_lt_transitive(l, m, y);
                }
            }
            lemma_least_above_unique(s, bound, l);
        } else {
            if above(bound, l) && l != m {
                lemma_path_lt_total(l, m);
            }
            lemma_least_above_unique(s, bound, m);
        }
    } else {
        assert(w == l);
        lemma_least_above_unique(s, bound, l);
    }
}

/// Some item of `s` before `bound` means a last one.
pub proof fn lemma_greatest_below_exists(s: Seq<Seq<char>>, bound: Option<Seq<char>>, w: Seq<char>)
    requires
        s.contains(w),
        below(bound, w),
    ensures
        greatest_below(s, bound) is Some,
        is_greatest_below(s, bound, greatest_below(s, bound)->0),
    decreases s.len(),
{
    let t = s.drop_last();
    crate::seqs::lemma_contains_split(s);
    let l = s.last();
    if exists|v: Seq<char>| t.contains(v) && below(bound, v) {
        let v = choose|v: Seq<char>| t.contains(v) && below(bound, v);
        lemma_greatest_below_exists(t, bound, v);
        let m = greatest_below(t, bound)->0;
        if below(bound, l) && l != m && path_lt(m, l) {
            assert forall|y: Seq<char>| s.contains(y) && below(bound, y) && y != l implies path_lt(
                y,
                l,
            ) by {
                if y != m {
                    lemma_path_lt_transitive(y, m, l);
                }
            }
            lemma_greatest_below_unique(s, bound, l);
        } else {
            if below(bound, l) && l != m {
                lemma_path_lt_total(l, m);
            }
            lemma_greatest_below_unique(s, bound, m);
        }
    } else {
        assert(w == l);
        lemma_greatest_below_unique(s, bound, l);
    }
}

/// No item of `s` after `bound`: no first one either.
pub proof fn lemma_least_above_none(s: Seq<Seq<char>>, bound: Option<Seq<char>>)
    requires
        forall|y: Seq<char>| s.contains(y) ==> !above(bound, y),
    ensures
        least_above(s, bound) is None,
{
}

/// No item of `s` before `bound`: no last one either.
pub proof fn lemma_greatest_below_none(s: Seq<Seq<char>>, bound: Option<Seq<char>>)
    requires
        forall|y: Seq<char>| s.contains(y) ==> !below(bound, y),
    ensures
        greatest_below(s, bound) is None,
{
}

fn is_above(bound: Option<&str>, y: &str) -> (res: bool)
    ensures
        res == above(
            match bound {
                Some(b) => Some(b@),
                None => None,
            },
            y@,
        ),
{
    match bound {
        Some(b) => path_less(b, y),
        None => true,
    }
}

fn is_below(bound: Option<&str>, y: &str) -> (res: bool)
    ensures
        res == below(
            match bound {
                Some(b) => Some(b@),
                None => None,
            },
            y@,
        ),
{
    match bound {
        Some(b) => path_less(y, b),
        None => true,
    }
}

/// The place in `values` of the first item after `bound` in path order.
pub fn find_least_above(values: &Vec<String>, bound: Option<&str>) -> (res: Option<usize>)
    ensures
        match res {
            Some(i) => i < values@.len() && is_least_above(
                texts(values@),
                match bound {
                    Some(b) => Some(b@),
                    None => None,
                },
                values@[i as int]@,
            ),
            None => forall|y: Seq<char>|
                texts(values@).contains(y) ==> !above(
                    match bound {
                        Some(b) => Some(b@),
                        None => None,
                    },
                    y,
                ),
        },
{
    let ghost b = match bound {
        Some(b) => Some(b@),
        None => None,
    };
    let ghost t = texts(values@);
    let mut best: Option<usize> = None;
    let mut i: usize = 0;
    while i < values.len()
        invariant
            i <= values@.len(),
            t == texts(values@),
            b == match bound {
                Some(b) => Some(b@),
                None => None::<Seq<char>>,
            },
            match best {
                Some(j) => j < i && above(b, t[j as int]) && forall|k: int|
                    0 <= k < i && above(b, t[k]) ==> t[k] == t[j as int] || path_lt(
                        t[j as int],
                        t[k],
                    ),
                None => forall|k: int| 0 <= k < i ==> !above(b, t[k]),
            },
        decreases values@.len() - i,
    {
        if is_above(bound, values[i].as_str()) {
            match best {
                None => {
                    best = Some(i);
                },
                Some(j) => {
                    if path_less(values[i].as_str(), values[j].as_str()) {
                        proof {
                            assert forall|k: int|
                                0 <= k < i + 1 && above(b, t[k]) implies t[k] == t[i as int]
                                || path_lt(t[i as int], t[k]) by {
                                if k < i && t[k] != t[j as int] {
                                    lemma_path_lt_transitive(t[i as int], t[j as int], t[k]);
                                }
                            }
                        }
                        best = Some(i);
                    } else {
                        proof {
                            if t[i as int] != t[j as int] {
                                lemma_path_lt_total(t[i as int], t[j as int]);
                            }
                        }
                    }
                },
            }
        }
        i = i + 1;
    }
    proof {
        assert forall|y: Seq<char>| t.contains(y) implies exists|k: int| 0 <= k < t.len() && t[k] == y by {
        }
        match best {
            Some(j) => {
                assert forall|y: Seq<char>| t.contains(y) && above(b, y) && y != t[j as int] implies path_lt(
                    t[j as int],
                    y,
                ) by {
                    let k = choose|k: int| 0 <= k < t.len() && t[k] == y;
                }
                assert(t.contains(t[j as int]));
            },
            None => {
                assert forall|y: Seq<char>| t.contains(y) implies !above(b, y) by {
                    let k = choose|k: int| 0 <= k < t.len() && t[k] == y;
                }
            },
        }
    }
    best
}

/// The place in `values` of the last item before `bound` in path order.
pub fn find_greatest_below(values: &Vec<String>, bound: Option<&str>) -> (res: Option<usize>)
    ensures
        match res {
            Some(i) => i < values@.len() && is_greatest_below(
                texts(values@),
                match bound {
                    Some(b) => Some(b@),
                    None => None,
                },
                values@[i as int]@,
            ),
            None => forall|y: Seq<char>|
                texts(values@).contains(y) ==> !below(
                    match bound {
                        Some(b) => Some(b@),
                        None => None,
                    },
                    y,
                ),
        },
{
    let ghost b = match bound {
        Some(b) => Some(b@),
        None => None,
    };
    let ghost t = texts(values@);
    let mut best: Option<usize> = None;
    let mut i: usize = 0;
    while i < values.len()
        invariant
            i <= values@.len(),
            t == texts(values@),
            b == match bound {
                Some(b) => Some(b@),
                None => None::<Seq<char>>,
            },
            match best {
                Some(j) => j < i && below(b, t[j as int]) && forall|k: int|
                    0 <= k < i && below(b, t[k]) ==> t[k] == t[j as int] || path_lt(
                        t[k],
                        t[j as int],
                    ),
                None => forall|k: int| 0 <= k < i ==> !below(b, t[k]),
            },
        decreases values@.len() - i,
    {
        if is_below(bound, values[i].as_str()) {
            match best {
                None => {
                    best = Some(i);
                },
                Some(j) => {
                    if path_less(values[j].as_str(), values[i].as_str()) {
                        proof {
                            assert forall|k: int|
                                0 <= k < i + 1 && below(b, t[k]) implies t[k] == t[i as int]
                                || path_lt(t[k], t[i as int]) by {
                                if k < i && t[k] != t[j as int] {
                                    lemma_path_lt_transitive(t[k], t[j as int], t[i as int]);
                                }
                            }
                        }
                        best = Some(i);
                    } else {
                        proof {
                            if t[i as int] != t[j as int] {
                                lemma_path_lt_total(t[i as int], t[j as int]);
                            }
                        }
                    }
                },
            }
        }
        i = i + 1;
    }
    proof {
        match best {
            Some(j) => {
                assert forall|y: Seq<char>| t.contains(y) && below(b, y) && y != t[j as int] implies path_lt(
                    y,
                    t[j as int],
                ) by {
                    let k = choose|k: int| 0 <= k < t.len() && t[k] == y;
                }
                assert(t.contains(t[j as int]));
            },
            None => {
                assert forall|y: Seq<char>| t.contains(y) implies !below(b, y) by {
                    let k = choose|k: int| 0 <= k < t.len() && t[k] == y;
                }
            },
        }
    }
    best
}


/// `b` appended to the path `a`, as `Path::join` does for a relative `b`.
pub open spec fn path_join(a: Seq<char>, b: Seq<char>) -> Seq<char> {
    if a.len() == 0 {
        b
    } else if a.last() == '/' {
        a + b
    } else {
        a + seq!['/'] + b
    }
}

/// The last component of a path: what follows its last `/`.
pub open spec fn path_file_name(p: Seq<char>) -> Seq<char>
    decreases p.len(),
{
    if p.len() == 0 {
        p
    } else if p.last() == '/' {
        Seq::empty()
    } else {
        path_file_name(p.drop_last()).push(p.last())
    }
}

/// Whether two texts are equal.
pub fn text_eq(a: &str, b: &str) -> (res: bool)
    ensures
        res == (a@ == b@),
{
    let la = a.unicode_len();
    let lb = b.unicode_len();
    if la != lb {
        return false;
    }
    let mut i: usize = 0;
    while i < la
        invariant
            la == a@.len(),
            lb == b@.len(),
            la == lb,
            i <= la,
            forall|k: int| 0 <= k < i ==> a@[k] == b@[k],
        decreases la - i,
    {
        if a.get_char(i) != b.get_char(i) {
            return false;
        }
        i = i + 1;
    }
    assert(a@ =~= b@);
    true
}

/// `b` appended to the path `a` (see `path_join`).
pub fn join(a: &str, b: &str) -> (res: String)
    ensures
        res@ == path_join(a@, b@),
{
    let la = a.unicode_len();
    if la == 0 {
        return String::from_str(b);
    }
    let mut res = String::from_str(a);
    if a.get_char(la - 1) != '/' {
        proof {
            reveal_strlit("/");
        }
        res.append("/");
    }
    res.append(b);
    res
}

/// The last component of the path `p` (see `path_file_name`).
pub fn file_name(p: &str) -> (res: String)
    ensures
        res@ == path_file_name(p@),
{
    let n = p.unicode_len();
    let mut start: usize = n;
    assert(p@.take(n as int) =~= p@);
    assert(p@ + p@.subrange(n as int, n as int) =~= p@);
    assert(path_file_name(p@) + p@.subrange(n as int, n as int) =~= path_file_name(p@));
    while start > 0 && p.get_char(start - 1) != '/'
        invariant
            n == p@.len(),
            start <= n,
            path_file_name(p@) == path_file_name(p@.take(start as int)) + p@.subrange(
                start as int,
                n as int,
            ),
        decreases start,
    {
        proof {
            let t = p@.take(start as int);
            assert(t.drop_last() =~= p@.take(start - 1));
            assert(p@.subrange(start - 1, n as int) =~= seq![t.last()] + p@.subrange(
                start as int,
                n as int,
            ));
            assert(path_file_name(t) == path_file_name(t.drop_last()).push(t.last()));
            assert(path_file_name(t.drop_last()).push(t.last()) + p@.subrange(start as int, n as int)
                =~= path_file_name(t.drop_last()) + (seq![t.last()] + p@.subrange(
                start as int,
                n as int,
            )));
        }
        start = start - 1;
    }
    proof {
        assert(p@.take(n as int) =~= p@);
        assert(p@.subrange(n as int, n as int) =~= Seq::<char>::empty());
        let t = p@.take(start as int);
        if start > 0 {
            assert(t.last() == '/');
        }
        assert(path_file_name(t) =~= Seq::<char>::empty());
        assert(path_file_name(p@) =~= p@.subrange(start as int, n as int));
    }
    String::from_str(p.substring_char(start, n))
}


/// The place of the last `c` in `p`, or -1 without one.
pub open spec fn last_of(p: Seq<char>, c: char) -> int
    decreases p.len(),
{
    if p.len() == 0 {
        -1
    } else if p.last() == c {
        p.len() - 1
    } else {
        last_of(p.drop_last(), c)
    }
}

/// The place of the last `/` in `p`, or -1 without one.
pub open spec fn last_sep(p: Seq<char>) -> int {
    last_of(p, '/')
}

/// `last_of` is the place of a `c` with none after it.
pub proof fn lemma_last_of(p: Seq<char>, c: char)
    ensures
        -1 <= last_of(p, c) < p.len(),
        last_of(p, c) >= 0 ==> p[last_of(p, c)] == c,
        forall|j: int| last_of(p, c) < j < p.len() ==> p[j] != c,
    decreases p.len(),
{
    if p.len() > 0 {
        let t = p.drop_last();
        lemma_last_of(t, c);
        if p.last() != c {
            assert forall|j: int| last_of(p, c) < j < p.len() implies p[j] != c by {
                if j < p.len() - 1 {
                    assert(p[j] == t[j]);
                }
            }
        }
    }
}

/// `last_sep` is the place of a `/` with none after it, and the file name
/// follows it.
pub proof fn lemma_last_sep(p: Seq<char>)
    ensures
        -1 <= last_sep(p) < p.len(),
        last_sep(p) >= 0 ==> p[last_sep(p)] == '/',
        forall|j: int| last_sep(p) < j < p.len() ==> p[j] != '/',
        path_file_name(p) == p.subrange(last_sep(p) + 1, p.len() as int),
    decreases p.len(),
{
    lemma_last_of(p, '/');
    if p.len() > 0 {
        let t = p.drop_last();
        lemma_last_sep(t);
        if p.last() != '/' {
            assert(p.subrange(last_sep(p) + 1, p.len() as int) =~= t.subrange(
                last_sep(t) + 1,
                t.len() as int,
            ).push(p.last()));
        } else {
            assert(p.subrange(last_sep(p) + 1, p.len() as int) =~= Seq::<char>::empty());
        }
    }
}

/// A place that holds `c` with none after it is `last_of`.
pub proof fn lemma_last_of_at(p: Seq<char>, c: char, k: int)
    requires
        -1 <= k < p.len(),
        k >= 0 ==> p[k] == c,
        forall|j: int| k < j < p.len() ==> p[j] != c,
    ensures
        last_of(p, c) == k,
{
    lemma_last_of(p, c);
    if last_of(p, c) < k {
        assert(p[k] != c);
    } else if last_of(p, c) > k {
        assert(p[last_of(p, c)] != c);
    }
}

/// The place of the last `c` in `p`.
pub fn last_index_of(p: &str, c: char) -> (res: Option<usize>)
    ensures
        match res {
            Some(k) => k as int == last_of(p@, c),
            None => last_of(p@, c) == -1,
        },
{
    let n = p.unicode_len();
    let mut i: usize = n;
    while i > 0
        invariant
            n == p@.len(),
            i <= n,
            forall|j: int| i <= j < n ==> p@[j] != c,
        decreases i,
    {
        if p.get_char(i - 1) == c {
            proof {
                lemma_last_of_at(p@, c, i - 1);
            }
            return Some(i - 1);
        }
        i = i - 1;
    }
    proof {
        lemma_last_of_at(p@, c, -1);
    }
    None
}

/// The directory above `p`, as `Path::parent` has it for a path written
/// without repeated or trailing separators: `None` for the empty path and
/// the root.
pub open spec fn path_parent(p: Seq<char>) -> Option<Seq<char>> {
    if p.len() == 0 || p == seq!['/'] {
        None
    } else if last_sep(p) < 0 {
        Some(Seq::empty())
    } else if last_sep(p) == 0 {
        Some(seq!['/'])
    } else {
        Some(p.take(last_sep(p)))
    }
}

/// The name of the last component of `p`: `None` for the empty path, the
/// root, and `..`.
pub open spec fn path_name(p: Seq<char>) -> Option<Seq<char>> {
    let name = path_file_name(p);
    if name.len() == 0 || name == seq!['.', '.'] {
        None
    } else {
        Some(name)
    }
}

/// The directory above the path `p` (see `path_parent`).
pub fn parent(p: &str) -> (res: Option<String>)
    ensures
        opt_text(res) == path_parent(p@),
{
    let n = p.unicode_len();
    if n == 0 {
        return None;
    }
    if n == 1 && p.get_char(0) == '/' {
        assert(p@ =~= seq!['/']);
        return None;
    }
    assert(p@ != seq!['/']) by {
        if p@ == seq!['/'] {
            assert(p@.len() == 1);
            assert(p@[0] == '/');
        }
    }
    proof {
        lemma_last_sep(p@);
    }
    match last_index_of(p, '/') {
        None => Some(String::new()),
        Some(k) => {
            if k == 0 {
                proof {
                    reveal_strlit("/");
                }
                let r = String::from_str("/");
                assert(r@ =~= seq!['/']);
                Some(r)
            } else {
                let r = String::from_str(p.substring_char(0, k));
                assert(r@ =~= p@.take(k as int));
                Some(r)
            }
        },
    }
}

/// The name of the last component of `p` (see `path_name`).
pub fn name_of(p: &str) -> (res: Option<String>)
    ensures
        opt_text(res) == path_name(p@),
{
    let name = file_name(p);
    let n = name.as_str().unicode_len();
    if n == 0 {
        return None;
    }
    if n == 2 && name.as_str().get_char(0) == '.' && name.as_str().get_char(1) == '.' {
        assert(name@ =~= seq!['.', '.']);
        return None;
    }
    assert(name@ != seq!['.', '.']) by {
        if name@ == seq!['.', '.'] {
            assert(name@[0] == '.' && name@[1] == '.');
        }
    }
    Some(name)
}

} // verus!
