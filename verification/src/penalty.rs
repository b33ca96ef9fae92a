use vstd::prelude::*;

verus! {

/// The delimiters whose presence in a token's decoded text makes the token
/// penalty-free: newline, comma, full stop and solidus.
pub open spec fn is_delimiter(b: u8) -> bool {
    b == 10 || b == 44 || b == 46 || b == 47
}

/// Does the decoded word contain a delimiter byte? All delimiters are single
/// ASCII bytes, so byte containment coincides with text containment.
pub open spec fn has_delimiter(w: Seq<u8>) -> bool {
    exists|i: int| 0 <= i < w.len() && is_delimiter(w[i])
}

fn word_has_delimiter(w: &Vec<u8>) -> (r: bool)
    ensures
        r == has_delimiter(w@),
{
    let n = w.len();
    let mut i: usize = 0;
    while i < n
        invariant
            i <= n,
            n == w@.len(),
            forall|j: int| 0 <= j < i ==> !is_delimiter(w@[j]),
        decreases n - i,
    {
        let b = w[i];
        if b == 10 || b == 44 || b == 46 || b == 47 {
            return true;
        }
        i += 1;
    }
    false
}

/// The set of token ids whose decoded text contains a delimiter; repetition
/// penalties are never applied to these. Computed once, from the table of
/// decoded words that the tokenizer gives each token id.
pub struct PenaltyFree {
    free: Vec<bool>,
}

impl PenaltyFree {
    /// Token `t` is penalty-free.
    pub closed spec fn spec_is_free(&self, t: u16) -> bool {
        t < self.free@.len() && self.free@[t as int]
    }

    /// Build the set from the decoded word of each token id, in id order.
    /// The set is a pure function of the word table: recomputing it from the
    /// same table yields the same set.
    pub fn from_words(words: &Vec<Vec<u8>>) -> (r: PenaltyFree)
        ensures
            forall|t: u16| #[trigger] r.spec_is_free(t) <==> (t < words@.len() && has_delimiter(
                words@[t as int]@,
            )),
    {
        let n = words.len();
        let mut free: Vec<bool> = Vec::new();
        let mut i: usize = 0;
        while i < n
            invariant
                i <= n,
                n == words@.len(),
                free@.len() == i,
                forall|j: int| 0 <= j < i ==> free@[j] == has_delimiter(words@[j]@),
            decreases n - i,
        {
            free.push(word_has_delimiter(&words[i]));
            i += 1;
        }
        PenaltyFree { free }
    }

    pub fn is_free(&self, t: u16) -> (r: bool)
        ensures
            r == self.spec_is_free(t),
    {
        (t as usize) < self.free.len() && self.free[t as usize]
    }

    /// The tokens of `penalties` that a penalty must actually be applied to:
    /// those not in the penalty-free set, in their original order.
    pub fn targets(&self, penalties: &Vec<u16>) -> (r: Vec<u16>)
        ensures
            r@ == penalties@.filter(|t: u16| !self.spec_is_free(t)),
    {
        let ghost pred = |t: u16| !self.spec_is_free(t);
        let n = penalties.len();
        let mut out: Vec<u16> = Vec::new();
        let mut i: usize = 0;
        proof {
            reveal(Seq::filter);
            assert(penalties@.subrange(0, 0) =~= Seq::<u16>::empty());
        }
        while i < n
            invariant
                i <= n,
                n == penalties@.len(),
                pred == (|t: u16| !self.spec_is_free(t)),
                out@ == penalties@.subrange(0, i as int).filter(pred),
            decreases n - i,
        {
            let t = penalties[i];
            proof {
                reveal(Seq::filter);
                let pre = penalties@.subrange(0, i as int);
                let cur = penalties@.subrange(0, i + 1);
                assert(cur.drop_last() =~= pre);
                assert(cur.last() == penalties@[i as int]);
            }
            if !self.is_free(t) {
                out.push(t);
            }
            i += 1;
        }
        assert(penalties@.subrange(0, n as int) =~= penalties@);
        out
    }
}

/// Recomputing the penalty-free set from an identical word table yields an
/// identical set: the set is closed under re-derivation from the tokenizer.
pub proof fn lemma_penalty_free_deterministic(a: PenaltyFree, b: PenaltyFree, words: Seq<Seq<u8>>)
    requires
        forall|t: u16| #[trigger] a.spec_is_free(t) <==> (t < words.len() && has_delimiter(
            words[t as int],
        )),
        forall|t: u16| #[trigger] b.spec_is_free(t) <==> (t < words.len() && has_delimiter(
            words[t as int],
        )),
    ensures
        forall|t: u16| #[trigger] a.spec_is_free(t) == b.spec_is_free(t),
{
}

/// Does the token list contain `t`?
pub fn tokens_contain(v: &Vec<u16>, t: u16) -> (r: bool)
    ensures
        r == v@.contains(t),
{
    let n = v.len();
    let mut i: usize = 0;
    while i < n
        invariant
            i <= n,
            n == v@.len(),
            forall|j: int| 0 <= j < i ==> v@[j] != t,
        decreases n - i,
    {
        if v[i] == t {
            return true;
        }
        i += 1;
    }
    false
}

} // verus!
