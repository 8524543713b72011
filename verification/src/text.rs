use vstd::prelude::*;

verus! {

/// ASCII whitespace: the bytes that trimming removes.  The engine's
/// textual model is bytewise and covers the ASCII plane: bytes of
/// multi-byte characters, Unicode whitespace among them, count as
/// ordinary content.
pub open spec fn is_ws(b: u8) -> bool {
    b == 32 || b == 9 || b == 10 || b == 13 || b == 11 || b == 12
}

/// Lowercasing of a single ASCII byte; any other byte is unchanged,
/// so case-insensitive command matching covers the ASCII plane only.
pub open spec fn lower_b(b: u8) -> u8 {
    if 'A' as u8 <= b && b <= 'Z' as u8 {
        (b + 32) as u8
    } else {
        b
    }
}

/// Bytewise ASCII lowercasing of a whole line.
pub open spec fn lower_sp(s: Seq<u8>) -> Seq<u8> {
    Seq::new(s.len(), |i: int| lower_b(s[i]))
}

/// The whitespace prefix of `s` removed.
pub open spec fn trim_start_sp(s: Seq<u8>) -> Seq<u8>
    decreases s.len(),
{
    if s.len() > 0 && is_ws(s[0]) {
        trim_start_sp(s.drop_first())
    } else {
        s
    }
}

/// The whitespace suffix of `s` removed.
pub open spec fn trim_end_sp(s: Seq<u8>) -> Seq<u8>
    decreases s.len(),
{
    if s.len() > 0 && is_ws(s.last()) {
        trim_end_sp(s.drop_last())
    } else {
        s
    }
}

/// Whitespace removed from both ends.
pub open spec fn trim_sp(s: Seq<u8>) -> Seq<u8> {
    trim_end_sp(trim_start_sp(s))
}

/// Splitting on a separator byte; empty segments are kept, and the
/// result always holds at least one segment.
pub open spec fn split_sp(s: Seq<u8>, sep: u8) -> Seq<Seq<u8>>
    decreases s.len(),
{
    if s.len() == 0 {
        seq![Seq::<u8>::empty()]
    } else if s.last() == sep {
        split_sp(s.drop_last(), sep) + seq![Seq::<u8>::empty()]
    } else {
        let r = split_sp(s.drop_last(), sep);
        r.update(r.len() - 1, r.last().push(s.last()))
    }
}

pub proof fn lemma_split_len(s: Seq<u8>, sep: u8)
    ensures
        split_sp(s, sep).len() >= 1,
    decreases s.len(),
{
    if s.len() > 0 {
        lemma_split_len(s.drop_last(), sep);
    }
}

/// Segments joined with a single space between them.
pub open spec fn join_sp(parts: Seq<Seq<u8>>) -> Seq<u8>
    decreases parts.len(),
{
    if parts.len() == 0 {
        Seq::empty()
    } else if parts.len() == 1 {
        parts[0]
    } else {
        join_sp(parts.drop_last()) + seq![32u8] + parts.last()
    }
}

/// Segments concatenated with no separator.
pub open spec fn concat_sp(parts: Seq<Seq<u8>>) -> Seq<u8>
    decreases parts.len(),
{
    if parts.len() == 0 {
        Seq::empty()
    } else {
        concat_sp(parts.drop_last()) + parts.last()
    }
}

/// Segments each preceded by one space, concatenated.
pub open spec fn prompt_sp(parts: Seq<Seq<u8>>) -> Seq<u8>
    decreases parts.len(),
{
    if parts.len() == 0 {
        Seq::empty()
    } else {
        prompt_sp(parts.drop_last()) + seq![32u8] + parts.last()
    }
}

/// The two-byte pattern `a b` stands at position `k` of `s`.
pub open spec fn hit2(s: Seq<u8>, k: int, a: u8, b: u8) -> bool {
    s[k] == a && s[k + 1] == b
}

/// Index of the first occurrence of the two-byte pattern `a b`, or -1.
pub open spec fn find2_sp(s: Seq<u8>, a: u8, b: u8) -> int
    decreases s.len(),
{
    if s.len() < 2 {
        -1
    } else if s[0] == a && s[1] == b {
        0
    } else {
        let r = find2_sp(s.drop_first(), a, b);
        if r < 0 {
            -1
        } else {
            r + 1
        }
    }
}

pub proof fn lemma_find2(s: Seq<u8>, a: u8, b: u8)
    ensures
        find2_sp(s, a, b) >= 0 ==> find2_sp(s, a, b) + 2 <= s.len(),
        find2_sp(s, a, b) >= 0 ==> hit2(s, find2_sp(s, a, b), a, b),
        find2_sp(s, a, b) >= 0 ==> forall|k: int|
            0 <= k < find2_sp(s, a, b) ==> !#[trigger] hit2(s, k, a, b),
        find2_sp(s, a, b) < 0 ==> forall|k: int|
            0 <= k <= s.len() - 2 ==> !#[trigger] hit2(s, k, a, b),
    decreases s.len(),
{
    if s.len() < 2 {
    } else if s[0] == a && s[1] == b {
        assert(hit2(s, 0, a, b));
    } else {
        let t = s.drop_first();
        lemma_find2(t, a, b);
        assert forall|k: int| 1 <= k <= s.len() - 2 && !hit2(t, k - 1, a, b) implies !#[trigger] hit2(
            s,
            k,
            a,
            b,
        ) by {
            assert(s[k] == t[k - 1] && s[k + 1] == t[k]);
        };
        assert(!hit2(s, 0, a, b));
        let r = find2_sp(s, a, b);
        if r >= 0 {
            assert(find2_sp(t, a, b) == r - 1);
            assert(hit2(t, r - 1, a, b));
            assert(s[r] == t[r - 1] && s[r + 1] == t[r]);
            assert(hit2(s, r, a, b));
        }
    }
}

/// Does `s` begin with the two bytes `a b`?
pub open spec fn prefix2_sp(s: Seq<u8>, a: u8, b: u8) -> bool {
    s.len() >= 2 && s[0] == a && s[1] == b
}

/// Does `s` begin with the four bytes `a b c d`?
pub open spec fn prefix4_sp(s: Seq<u8>, a: u8, b: u8, c: u8, d: u8) -> bool {
    s.len() >= 4 && s[0] == a && s[1] == b && s[2] == c && s[3] == d
}

pub fn has_prefix2(s: &Vec<u8>, a: u8, b: u8) -> (r: bool)
    ensures
        r == prefix2_sp(s@, a, b),
{
    s.len() >= 2 && s[0] == a && s[1] == b
}

pub fn has_prefix4(s: &Vec<u8>, a: u8, b: u8, c: u8, d: u8) -> (r: bool)
    ensures
        r == prefix4_sp(s@, a, b, c, d),
{
    s.len() >= 4 && s[0] == a && s[1] == b && s[2] == c && s[3] == d
}

pub fn bytes_eq(x: &Vec<u8>, y: &Vec<u8>) -> (r: bool)
    ensures
        r <==> x@ == y@,
{
    if x.len() != y.len() {
        assert(x@ != y@) by {
            assert(x@.len() != y@.len());
        }
        return false;
    }
    let mut i: usize = 0;
    while i < x.len()
        invariant
            0 <= i <= x.len(),
            x@.len() == y@.len(),
            forall|j: int| 0 <= j < i ==> x@[j] == y@[j],
        decreases x.len() - i,
    {
        if x[i] != y[i] {
            assert(x@ != y@) by {
                assert(x@[i as int] != y@[i as int]);
            }
            return false;
        }
        i += 1;
    }
    proof {
        assert(x@ =~= y@);
    }
    true
}

pub fn push_all(dst: &mut Vec<u8>, src: &Vec<u8>)
    ensures
        final(dst)@ == old(dst)@ + src@,
{
    let mut i: usize = 0;
    while i < src.len()
        invariant
            0 <= i <= src.len(),
            dst@ == old(dst)@ + src@.take(i as int),
        decreases src.len() - i,
    {
        dst.push(src[i]);
        proof {
            assert(old(dst)@ + src@.take(i as int) + seq![src@[i as int]] =~= old(dst)@
                + src@.take(i + 1));
        }
        i += 1;
    }
    proof {
        assert(src@.take(src@.len() as int) =~= src@);
    }
}

/// The bytes of `s` from `from` (inclusive) to `to` (exclusive).
pub fn subvec(s: &Vec<u8>, from: usize, to: usize) -> (r: Vec<u8>)
    requires
        from <= to <= s@.len(),
    ensures
        r@ == s@.subrange(from as int, to as int),
{
    let mut r: Vec<u8> = Vec::new();
    let mut i: usize = from;
    while i < to
        invariant
            from <= i <= to <= s@.len(),
            r@ == s@.subrange(from as int, i as int),
        decreases to - i,
    {
        r.push(s[i]);
        proof {
            assert(s@.subrange(from as int, i as int).push(s@[i as int]) =~= s@.subrange(
                from as int,
                i + 1,
            ));
        }
        i += 1;
    }
    r
}

/// `s` with the span `from..to` replaced by `ins`.
pub fn splice(s: &Vec<u8>, from: usize, to: usize, ins: &Vec<u8>) -> (r: Vec<u8>)
    requires
        from <= to <= s@.len(),
    ensures
        r@ == s@.take(from as int) + ins@ + s@.skip(to as int),
{
    let mut r = subvec(s, 0, from);
    proof {
        assert(s@.subrange(0, from as int) =~= s@.take(from as int));
    }
    push_all(&mut r, ins);
    let tail = subvec(s, to, s.len());
    proof {
        assert(s@.subrange(to as int, s@.len() as int) =~= s@.skip(to as int));
    }
    push_all(&mut r, &tail);
    r
}

pub fn lower(s: &Vec<u8>) -> (r: Vec<u8>)
    ensures
        r@ == lower_sp(s@),
{
    let mut r: Vec<u8> = Vec::new();
    let mut i: usize = 0;
    while i < s.len()
        invariant
            0 <= i <= s@.len(),
            r@.len() == i,
            forall|j: int| 0 <= j < i ==> r@[j] == lower_b(s@[j]),
        decreases s.len() - i,
    {
        let b = s[i];
        if 'A' as u8 <= b && b <= 'Z' as u8 {
            r.push(b + 32);
        } else {
            r.push(b);
        }
        i += 1;
    }
    proof {
        assert(r@ =~= lower_sp(s@));
    }
    r
}

proof fn lemma_trim_start_at(s: Seq<u8>, i: int)
    requires
        0 <= i <= s.len(),
        forall|k: int| 0 <= k < i ==> is_ws(s[k]),
        i == s.len() || !is_ws(s[i]),
    ensures
        trim_start_sp(s) == s.skip(i),
    decreases i,
{
    if i == 0 {
        assert(s.skip(0) =~= s);
    } else {
        let t = s.drop_first();
        lemma_trim_start_at(t, i - 1);
        assert(t.skip(i - 1) =~= s.skip(i));
    }
}

proof fn lemma_trim_end_at(s: Seq<u8>, j: int)
    requires
        0 <= j <= s.len(),
        forall|k: int| j <= k < s.len() ==> is_ws(s[k]),
        j == 0 || !is_ws(s[j - 1]),
    ensures
        trim_end_sp(s) == s.take(j),
    decreases s.len() - j,
{
    if j == s.len() {
        assert(s.take(j) =~= s);
    } else {
        let t = s.drop_last();
        lemma_trim_end_at(t, j);
        assert(t.take(j) =~= s.take(j));
    }
}

fn ws_byte(b: u8) -> (r: bool)
    ensures
        r == is_ws(b),
{
    b == 32 || b == 9 || b == 10 || b == 13 || b == 11 || b == 12
}

pub fn trim_start(s: &Vec<u8>) -> (r: Vec<u8>)
    ensures
        r@ == trim_start_sp(s@),
{
    let mut i: usize = 0;
    while i < s.len() && ws_byte(s[i])
        invariant
            0 <= i <= s@.len(),
            forall|k: int| 0 <= k < i ==> is_ws(s@[k]),
        decreases s.len() - i,
    {
        i += 1;
    }
    proof {
        lemma_trim_start_at(s@, i as int);
    }
    let r = subvec(s, i, s.len());
    proof {
        assert(s@.subrange(i as int, s@.len() as int) =~= s@.skip(i as int));
    }
    r
}

pub fn trim_end(s: &Vec<u8>) -> (r: Vec<u8>)
    ensures
        r@ == trim_end_sp(s@),
{
    let mut j: usize = s.len();
    while j > 0 && ws_byte(s[j - 1])
        invariant
            0 <= j <= s@.len(),
            forall|k: int| j <= k < s@.len() ==> is_ws(s@[k]),
        decreases j,
    {
        j -= 1;
    }
    proof {
        lemma_trim_end_at(s@, j as int);
    }
    let r = subvec(s, 0, j);
    proof {
        assert(s@.subrange(0, j as int) =~= s@.take(j as int));
    }
    r
}

pub fn trim(s: &Vec<u8>) -> (r: Vec<u8>)
    ensures
        r@ == trim_sp(s@),
{
    let a = trim_start(s);
    trim_end(&a)
}

pub fn find2(s: &Vec<u8>, a: u8, b: u8) -> (r: Option<usize>)
    ensures
        match r {
            Some(i) => find2_sp(s@, a, b) == i,
            None => find2_sp(s@, a, b) < 0,
        },
{
    proof {
        lemma_find2(s@, a, b);
    }
    if s.len() < 2 {
        return None;
    }
    let mut i: usize = 0;
    while i <= s.len() - 2
        invariant
            s@.len() >= 2,
            0 <= i <= s@.len() - 1,
            forall|k: int| 0 <= k < i ==> !#[trigger] hit2(s@, k, a, b),
        decreases s.len() - i,
    {
        if s[i] == a && s[i + 1] == b {
            proof {
                lemma_find2(s@, a, b);
                assert(hit2(s@, i as int, a, b));
                if 0 <= find2_sp(s@, a, b) < i {
                    let r = find2_sp(s@, a, b);
                    assert(hit2(s@, r, a, b));
                }
                if find2_sp(s@, a, b) > i {
                    assert(!hit2(s@, i as int, a, b));
                }
            }
            return Some(i);
        }
        proof {
            assert(!hit2(s@, i as int, a, b));
        }
        i += 1;
    }
    proof {
        if find2_sp(s@, a, b) >= 0 {
            let r = find2_sp(s@, a, b);
            assert(!hit2(s@, r, a, b));
            assert(hit2(s@, r, a, b));
        }
    }
    None
}

pub fn split_bytes(s: &Vec<u8>, sep: u8) -> (r: Vec<Vec<u8>>)
    ensures
        r.deep_view() == split_sp(s@, sep),
        r@.len() >= 1,
{
    let mut done: Vec<Vec<u8>> = Vec::new();
    let mut cur: Vec<u8> = Vec::new();
    let mut k: usize = 0;
    while k < s.len()
        invariant
            0 <= k <= s@.len(),
            done.deep_view() + seq![cur@] =~= split_sp(s@.take(k as int), sep),
        decreases s.len() - k,
    {
        proof {
            assert(s@.take(k + 1).drop_last() =~= s@.take(k as int));
            assert(s@.take(k + 1).last() == s@[k as int]);
            lemma_split_len(s@.take(k as int), sep);
        }
        if s[k] == sep {
            let ghost prev_done = done.deep_view();
            done.push(cur);
            proof {
                assert(done.deep_view() =~~= prev_done + seq![cur@]);
            }
            cur = Vec::new();
            proof {
                assert(done.deep_view() + seq![cur@] =~~= split_sp(s@.take(k + 1), sep));
            }
        } else {
            let ghost prev = done.deep_view() + seq![cur@];
            cur.push(s[k]);
            proof {
                assert(done.deep_view() + seq![cur@] =~~= prev.update(
                    prev.len() - 1,
                    prev.last().push(s@[k as int]),
                ));
                assert(done.deep_view() + seq![cur@] =~~= split_sp(s@.take(k + 1), sep));
            }
        }
        k += 1;
    }
    proof {
        assert(s@.take(s@.len() as int) =~= s@);
    }
    let ghost prev_done = done.deep_view();
    done.push(cur);
    proof {
        assert(done.deep_view() =~~= prev_done + seq![cur@]);
    }
    done
}

/// A view helper: a byte vector's deep view is its view.
pub proof fn lemma_deep_u8(v: Vec<u8>)
    ensures
        v.deep_view() == v@,
{
    assert(v.deep_view() =~= v@);
}

pub fn join_spaces(parts: &Vec<Vec<u8>>, from: usize) -> (r: Vec<u8>)
    requires
        from <= parts@.len(),
    ensures
        r@ == join_sp(parts.deep_view().skip(from as int)),
{
    let ghost tail = parts.deep_view().skip(from as int);
    let mut r: Vec<u8> = Vec::new();
    let mut k: usize = from;
    while k < parts.len()
        invariant
            from <= k <= parts@.len(),
            tail == parts.deep_view().skip(from as int),
            r@ =~= join_sp(tail.take(k - from)),
        decreases parts.len() - k,
    {
        proof {
            assert(tail.take(k + 1 - from).drop_last() =~= tail.take(k - from));
            lemma_deep_u8(parts@[k as int]);
            assert(tail.take(k + 1 - from).last() == parts@[k as int]@);
        }
        if k > from {
            r.push(32);
        }
        push_all(&mut r, &parts[k]);
        k += 1;
    }
    proof {
        assert(tail.take(parts@.len() - from) =~= tail);
    }
    r
}

pub fn concat_parts(parts: &Vec<Vec<u8>>, from: usize) -> (r: Vec<u8>)
    requires
        from <= parts@.len(),
    ensures
        r@ == concat_sp(parts.deep_view().skip(from as int)),
{
    let ghost tail = parts.deep_view().skip(from as int);
    let mut r: Vec<u8> = Vec::new();
    let mut k: usize = from;
    while k < parts.len()
        invariant
            from <= k <= parts@.len(),
            tail == parts.deep_view().skip(from as int),
            r@ =~= concat_sp(tail.take(k - from)),
        decreases parts.len() - k,
    {
        proof {
            assert(tail.take(k + 1 - from).drop_last() =~= tail.take(k - from));
            lemma_deep_u8(parts@[k as int]);
            assert(tail.take(k + 1 - from).last() == parts@[k as int]@);
        }
        push_all(&mut r, &parts[k]);
        k += 1;
    }
    proof {
        assert(tail.take(parts@.len() - from) =~= tail);
    }
    r
}

pub fn prompt_parts(parts: &Vec<Vec<u8>>, from: usize) -> (r: Vec<u8>)
    requires
        from <= parts@.len(),
    ensures
        r@ == prompt_sp(parts.deep_view().skip(from as int)),
{
    let ghost tail = parts.deep_view().skip(from as int);
    let mut r: Vec<u8> = Vec::new();
    let mut k: usize = from;
    while k < parts.len()
        invariant
            from <= k <= parts@.len(),
            tail == parts.deep_view().skip(from as int),
            r@ =~= prompt_sp(tail.take(k - from)),
        decreases parts.len() - k,
    {
        proof {
            assert(tail.take(k + 1 - from).drop_last() =~= tail.take(k - from));
            lemma_deep_u8(parts@[k as int]);
            assert(tail.take(k + 1 - from).last() == parts@[k as int]@);
        }
        r.push(32);
        push_all(&mut r, &parts[k]);
        k += 1;
    }
    proof {
        assert(tail.take(parts@.len() - from) =~= tail);
    }
    r
}

} // verus!
