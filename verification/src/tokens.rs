use vstd::prelude::*;

verus! {

/// `p` is a prefix of `s`.
pub open spec fn is_prefix<A>(p: Seq<A>, s: Seq<A>) -> bool {
    p.len() <= s.len() && p == s.subrange(0, p.len() as int)
}

/// The low byte of a token id.
pub open spec fn lo_byte(t: u16) -> u8 {
    (t & 0xff) as u8
}

/// The high byte of a token id.
pub open spec fn hi_byte(t: u16) -> u8 {
    (t >> 8) as u8
}

/// The little-endian byte image of a token sequence: two bytes per token, so
/// that byte offsets at token boundaries are exactly the even offsets.
pub open spec fn le_bytes(s: Seq<u16>) -> Seq<u8>
    decreases s.len(),
{
    if s.len() == 0 {
        Seq::empty()
    } else {
        seq![lo_byte(s[0]), hi_byte(s[0])] + le_bytes(s.subrange(1, s.len() as int))
    }
}

pub proof fn lemma_le_bytes_len(s: Seq<u16>)
    ensures
        le_bytes(s).len() == 2 * s.len(),
    decreases s.len(),
{
    if s.len() > 0 {
        lemma_le_bytes_len(s.subrange(1, s.len() as int));
    }
}

pub proof fn lemma_le_bytes_push(s: Seq<u16>, t: u16)
    ensures
        le_bytes(s.push(t)) == le_bytes(s) + seq![lo_byte(t), hi_byte(t)],
    decreases s.len(),
{
    let sp = s.push(t);
    if s.len() == 0 {
        assert(sp[0] == t);
        assert(sp.subrange(1, sp.len() as int) =~= Seq::<u16>::empty());
        assert(le_bytes(Seq::<u16>::empty()) =~= Seq::<u8>::empty());
        assert(le_bytes(s) =~= Seq::<u8>::empty());
        assert(le_bytes(sp) =~= le_bytes(s) + seq![lo_byte(t), hi_byte(t)]);
    } else {
        assert(sp[0] == s[0]);
        assert(sp.subrange(1, sp.len() as int) =~= s.subrange(1, s.len() as int).push(t));
        lemma_le_bytes_push(s.subrange(1, s.len() as int), t);
        assert(le_bytes(sp) == seq![lo_byte(s[0]), hi_byte(s[0])] + le_bytes(
            sp.subrange(1, sp.len() as int),
        ));
        assert(le_bytes(sp) =~= le_bytes(s) + seq![lo_byte(t), hi_byte(t)]);
    }
}

/// A token-sequence prefix maps to a byte-image prefix.
pub proof fn lemma_le_bytes_prefix(p: Seq<u16>, s: Seq<u16>)
    requires
        is_prefix(p, s),
    ensures
        is_prefix(le_bytes(p), le_bytes(s)),
        le_bytes(p).len() == 2 * p.len(),
    decreases p.len(),
{
    lemma_le_bytes_len(p);
    lemma_le_bytes_len(s);
    if p.len() == 0 {
        assert(le_bytes(p) =~= Seq::<u8>::empty());
        assert(le_bytes(p) =~= le_bytes(s).subrange(0, 0));
    } else {
        let pt = p.subrange(1, p.len() as int);
        let st = s.subrange(1, s.len() as int);
        assert(p[0] == s[0]);
        assert(is_prefix(pt, st)) by {
            assert(pt =~= st.subrange(0, pt.len() as int));
        }
        lemma_le_bytes_prefix(pt, st);
        lemma_le_bytes_len(pt);
        lemma_le_bytes_len(st);
        assert(le_bytes(p) == seq![lo_byte(p[0]), hi_byte(p[0])] + le_bytes(pt));
        assert(le_bytes(s) == seq![lo_byte(s[0]), hi_byte(s[0])] + le_bytes(st));
        assert forall|i: int| 0 <= i < le_bytes(p).len() implies le_bytes(p)[i] == le_bytes(
            s,
        ).subrange(0, le_bytes(p).len() as int)[i] by {
            if i >= 2 {
                assert(le_bytes(p)[i] == le_bytes(pt)[i - 2]);
                assert(le_bytes(pt)[i - 2] == le_bytes(st).subrange(
                    0,
                    le_bytes(pt).len() as int,
                )[i - 2]);
                assert(le_bytes(st)[i - 2] == le_bytes(s)[i]);
            }
        }
        assert(le_bytes(p) =~= le_bytes(s).subrange(0, le_bytes(p).len() as int));
    }
}

/// The byte image is injective: equal images come from equal sequences.
pub proof fn lemma_le_bytes_injective(a: Seq<u16>, b: Seq<u16>)
    requires
        le_bytes(a) == le_bytes(b),
    ensures
        a == b,
    decreases a.len(),
{
    lemma_le_bytes_len(a);
    lemma_le_bytes_len(b);
    if a.len() == 0 {
        assert(a =~= b);
    } else {
        let x = a[0];
        let y = b[0];
        assert(le_bytes(a)[0] == lo_byte(x) && le_bytes(a)[1] == hi_byte(x));
        assert(le_bytes(b)[0] == lo_byte(y) && le_bytes(b)[1] == hi_byte(y));
        assert(x == y) by (bit_vector)
            requires
                (x & 0xff) as u8 == (y & 0xff) as u8 && (x >> 8) as u8 == (y >> 8) as u8,
        ;
        let at = a.subrange(1, a.len() as int);
        let bt = b.subrange(1, b.len() as int);
        assert(le_bytes(at) =~= le_bytes(a).subrange(2, le_bytes(a).len() as int));
        assert(le_bytes(bt) =~= le_bytes(b).subrange(2, le_bytes(b).len() as int));
        lemma_le_bytes_injective(at, bt);
        assert forall|i: int| 0 <= i < a.len() implies a[i] == b[i] by {
            if i >= 1 {
                assert(at[i - 1] == bt[i - 1]);
            }
        }
        assert(a =~= b);
    }
}

/// An ordered sequence of 16-bit token ids.
///
/// Usable both token-addressed (admission, prefix/suffix accounting) and, via
/// [`AsTokenSlice`], as a byte-addressed cache key whose breakpoints land on
/// token boundaries.
#[derive(Debug, Clone)]
pub struct Tokens(pub Vec<u16>);

/// The little-endian byte form of a token sequence, the shape in which the
/// prefix cache indexes its keys.
#[derive(Debug, Clone)]
pub struct TokenSlice(pub Vec<u8>);

impl View for Tokens {
    type V = Seq<u16>;

    open spec fn view(&self) -> Seq<u16> {
        self.0@
    }
}

impl View for TokenSlice {
    type V = Seq<u8>;

    open spec fn view(&self) -> Seq<u8> {
        self.0@
    }
}

impl Tokens {
    /// The empty token sequence.
    pub fn empty() -> (r: Tokens)
        ensures
            r@ == Seq::<u16>::empty(),
    {
        Tokens(Vec::new())
    }

    pub fn len(&self) -> (n: usize)
        ensures
            n == self@.len(),
    {
        self.0.len()
    }

    pub fn is_empty(&self) -> (r: bool)
        ensures
            r == (self@.len() == 0),
    {
        self.0.len() == 0
    }

    /// Does `self` start with `other`?
    pub fn starts_with(&self, other: &Tokens) -> (r: bool)
        ensures
            r == is_prefix(other@, self@),
    {
        if other.0.len() > self.0.len() {
            assert(!is_prefix(other@, self@));
            return false;
        }
        let n = other.0.len();
        let mut i: usize = 0;
        while i < n
            invariant
                i <= n,
                n == other@.len(),
                n <= self@.len(),
                forall|j: int| 0 <= j < i ==> self@[j] == other@[j],
            decreases n - i,
        {
            if self.0[i] != other.0[i] {
                assert(self@[i as int] != other@.subrange(0, n as int)[i as int]);
                assert(!is_prefix(other@, self@)) by {
                    if is_prefix(other@, self@) {
                        assert(other@[i as int] == self@.subrange(0, n as int)[i as int]);
                    }
                }
                return false;
            }
            i += 1;
        }
        assert(other@ =~= self@.subrange(0, n as int));
        true
    }

    /// The tokens `self[from..to]`, copied.
    pub fn slice(&self, from: usize, to: usize) -> (r: Tokens)
        requires
            from <= to <= self@.len(),
        ensures
            r@ == self@.subrange(from as int, to as int),
    {
        let mut out: Vec<u16> = Vec::new();
        let mut i: usize = from;
        while i < to
            invariant
                from <= i <= to <= self@.len(),
                out@ =~= self@.subrange(from as int, i as int),
            decreases to - i,
        {
            out.push(self.0[i]);
            assert(out@ =~= self@.subrange(from as int, i + 1));
            i += 1;
        }
        Tokens(out)
    }

    /// A copy of this sequence.
    pub fn duplicate(&self) -> (r: Tokens)
        ensures
            r@ == self@,
    {
        Tokens(dup_vec(&self.0))
    }
}

/// A copy of a vector of plain values.
pub fn dup_vec<T: Copy>(v: &Vec<T>) -> (r: Vec<T>)
    ensures
        r@ == v@,
{
    let n = v.len();
    let mut out: Vec<T> = Vec::new();
    let mut i: usize = 0;
    while i < n
        invariant
            i <= n,
            n == v@.len(),
            out@ =~= v@.subrange(0, i as int),
        decreases n - i,
    {
        out.push(v[i]);
        assert(out@ =~= v@.subrange(0, i + 1));
        i += 1;
    }
    assert(out@ =~= v@);
    out
}

/// A copy of `v[from..to]`.
pub fn dup_range<T: Copy>(v: &Vec<T>, from: usize, to: usize) -> (r: Vec<T>)
    requires
        from <= to <= v@.len(),
    ensures
        r@ == v@.subrange(from as int, to as int),
{
    let mut out: Vec<T> = Vec::new();
    let mut i: usize = from;
    while i < to
        invariant
            from <= i <= to <= v@.len(),
            out@ =~= v@.subrange(from as int, i as int),
        decreases to - i,
    {
        out.push(v[i]);
        assert(out@ =~= v@.subrange(from as int, i + 1));
        i += 1;
    }
    out
}

/// The concatenation of two vectors of plain values.
pub fn concat_vec<T: Copy>(a: &Vec<T>, b: &Vec<T>) -> (r: Vec<T>)
    ensures
        r@ == a@ + b@,
{
    let mut out = dup_vec(a);
    let n = b.len();
    let mut i: usize = 0;
    while i < n
        invariant
            i <= n,
            n == b@.len(),
            out@ == a@ + b@.subrange(0, i as int),
        decreases n - i,
    {
        out.push(b[i]);
        assert(out@ =~= a@ + b@.subrange(0, i + 1));
        i += 1;
    }
    assert(out@ =~= a@ + b@);
    out
}

/// Conversion to the byte-addressed key form.
pub trait AsTokenSlice {
    spec fn token_seq(&self) -> Seq<u16>;

    /// The little-endian byte image of the token sequence.
    fn as_token_slice(&self) -> (r: TokenSlice)
        ensures
            r@ == le_bytes(self.token_seq()),
    ;
}

impl AsTokenSlice for Vec<u16> {
    open spec fn token_seq(&self) -> Seq<u16> {
        self@
    }

    fn as_token_slice(&self) -> (r: TokenSlice) {
        let mut out: Vec<u8> = Vec::new();
        let n = self.len();
        let mut i: usize = 0;
        while i < n
            invariant
                i <= n,
                n == self@.len(),
                out@ == le_bytes(self@.subrange(0, i as int)),
            decreases n - i,
        {
            let t = self[i];
            out.push((t & 0xff) as u8);
            out.push((t >> 8) as u8);
            proof {
                let pre = self@.subrange(0, i as int);
                lemma_le_bytes_push(pre, self@[i as int]);
                assert(pre.push(self@[i as int]) =~= self@.subrange(0, i + 1));
                assert((self@[i as int] & 0xff) as u8 == lo_byte(self@[i as int]));
            }
            i += 1;
        }
        assert(self@.subrange(0, n as int) =~= self@);
        TokenSlice(out)
    }
}

impl AsTokenSlice for Tokens {
    open spec fn token_seq(&self) -> Seq<u16> {
        self@
    }

    fn as_token_slice(&self) -> (r: TokenSlice) {
        self.0.as_token_slice()
    }
}

} // verus!
