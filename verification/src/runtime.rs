use vstd::prelude::*;
use vstd::pervasive::VecAdditionalExecFns;
use crate::cache::PrefixStateCache;
use crate::context::{FinishReason, GenerateContext, GenerateContextView, Setting, Token,
    TokenCounter};
use crate::penalty::{tokens_contain, PenaltyFree};
use crate::slots::{busy_count, classify, choice_ge, Payload, SlotChoice, SlotState};
use crate::stop::{best_cut, find_cut, stops_view};
use crate::tokens::{concat_vec, dup_range, dup_vec, is_prefix, Tokens};

verus! {

/// The outcome of an admission attempt.
#[derive(Debug)]
pub enum SlotResult {
    /// Placed in a slot that already holds the exact prefix; no state
    /// transfer needed.
    Success(usize),
    /// Placed in a slot after displacing its content; the caller performs
    /// the state transfers of the accompanying [`AdmitOps`].
    Fault(usize),
    /// No idle slot: the caller keeps the context and retries later.
    Failure(Box<GenerateContext>),
    /// The request had no input tokens.
    Error,
}

/// Where a slot's fresh state comes from on admission.
#[derive(Debug, Clone, Copy, PartialEq, Eq, Structural)]
pub enum LoadSource {
    /// A fresh initial state.
    Fresh,
    /// The cached snapshot under this handle.
    Cached(u64),
}

/// The model-state transfers the caller performs after an admission, in
/// order: first serialize the displaced slot's state under the `back` handle
/// (the cache already holds that handle), then load the slot from `load`.
#[derive(Debug, Clone, Copy, PartialEq, Eq, Structural)]
pub struct AdmitOps {
    pub back: Option<u64>,
    pub load: Option<LoadSource>,
}

/// Is a `Wait` slot's context admissible? Other states carry no context.
pub open spec fn slot_ok(s: SlotState) -> bool {
    match s {
        SlotState::Wait(c) => c@.admissible(),
        _ => true,
    }
}

/// The content of an idle slot.
pub open spec fn idle_content(s: SlotState) -> Seq<u16> {
    match s {
        SlotState::Idle(content, _) => content@,
        _ => Seq::empty(),
    }
}

/// The timestamp of an idle slot.
pub open spec fn idle_since(s: SlotState) -> u64 {
    match s {
        SlotState::Idle(_, since) => since,
        _ => 0,
    }
}

/// The context of a waiting slot.
pub open spec fn wait_ctx(s: SlotState) -> GenerateContextView
    recommends
        s is Wait,
{
    match s {
        SlotState::Wait(c) => c@,
        _ => arbitrary(),
    }
}

/// Slot `a`'s admission key is at least as preferred as slot `b`'s, both
/// idle, for a request with the given stem.
pub open spec fn slot_ge(slots: Seq<SlotState>, stem: Seq<u16>, a: int, b: int) -> bool {
    choice_ge(
        classify(a, idle_content(slots[a]), stem),
        idle_since(slots[a]),
        classify(b, idle_content(slots[b]), stem),
        idle_since(slots[b]),
    )
}

/// Slot `b` is a best idle slot for the stem: idle, and at least as
/// preferred as every idle slot.
pub open spec fn best_idle(slots: Seq<SlotState>, stem: Seq<u16>, b: int) -> bool {
    &&& 0 <= b < slots.len()
    &&& slots[b] is Idle
    &&& forall|j: int| 0 <= j < slots.len() && slots[j] is Idle ==> slot_ge(slots, stem, b, j)
}

/// The two contexts describe the same request: everything but the
/// prefix/suffix split agrees.
pub open spec fn same_request(a: GenerateContextView, b: GenerateContextView) -> bool {
    &&& a.prompt_tokens == b.prompt_tokens
    &&& a.penalties == b.penalties
    &&& a.model_text == b.model_text
    &&& a.output_buffer == b.output_buffer
    &&& a.model_tokens == b.model_tokens
    &&& a.max_tokens == b.max_tokens
    &&& a.stop == b.stop
    &&& a.embed == b.embed
    &&& a.sender == b.sender
}

/// `p` is the longest non-empty cached prefix of the stem, or empty if the
/// cache holds none.
pub open spec fn longest_cached(m: Map<Seq<u16>, u64>, stem: Seq<u16>, p: Seq<u16>) -> bool {
    &&& is_prefix(p, stem)
    &&& (p.len() > 0 ==> m.contains_key(p))
    &&& forall|q: Seq<u16>| m.contains_key(q) && is_prefix(q, stem) && q.len() > 0 ==> q.len()
        <= p.len()
}

/// The batched scheduler: the slot table, the prefix-state cache, the
/// concurrency cap, and the penalty-free token set. The model runtime, the
/// tokenizer and the samplers stay with the caller, which performs the state
/// transfers and float arithmetic this type's answers call for.
pub struct Runtime {
    /// One state per batch slot.
    pub slots: Vec<SlotState>,
    /// Snapshots of slot states, keyed by the tokens they stand for.
    pub cache: PrefixStateCache,
    /// How many slots may run concurrently.
    pub max_runtime_batch: usize,
    /// The layer whose embedding is read out of a finished slot's snapshot.
    pub embed_layer: usize,
    /// Tokens exempt from repetition penalties.
    pub penalty_free: PenaltyFree,
}

impl Runtime {
    /// Every waiting context is admissible.
    pub open spec fn wf(self) -> bool {
        forall|i: int| 0 <= i < self.slots@.len() ==> slot_ok(#[trigger] self.slots@[i])
    }

    /// A new runtime: `max_batch` idle slots with empty content and the given
    /// timestamp, an empty cache, and the penalty-free set derived from the
    /// decoded word of each token id.
    pub fn new(
        max_batch: usize,
        max_runtime_batch: usize,
        embed_layer: usize,
        words: &Vec<Vec<u8>>,
        now: u64,
    ) -> (r: Runtime)
        ensures
            r.wf(),
            r.slots@.len() == max_batch,
            forall|i: int|
                0 <= i < max_batch ==> idle_content(#[trigger] r.slots@[i]).len() == 0
                    && r.slots@[i] is Idle && idle_since(r.slots@[i]) == now,
            r.cache@ == Map::<Seq<u16>, u64>::empty(),
            r.max_runtime_batch == max_runtime_batch,
            r.embed_layer == embed_layer,
            forall|t: u16| #[trigger] r.penalty_free.spec_is_free(t) <==> (t < words@.len()
                && crate::penalty::has_delimiter(words@[t as int]@)),
    {
        let mut slots: Vec<SlotState> = Vec::new();
        let mut i: usize = 0;
        while i < max_batch
            invariant
                i <= max_batch,
                slots@.len() == i,
                forall|j: int|
                    0 <= j < i ==> idle_content(#[trigger] slots@[j]).len() == 0 && slots@[j]
                        is Idle && idle_since(slots@[j]) == now,
            decreases max_batch - i,
        {
            slots.push(SlotState::Idle(Tokens::empty(), now));
            i += 1;
        }
        Runtime {
            slots,
            cache: PrefixStateCache::new(),
            max_runtime_batch,
            embed_layer,
            penalty_free: PenaltyFree::from_words(words),
        }
    }

    /// Queue an inference task.
    ///
    /// The full input is the context's prefix followed by its suffix; its
    /// final token always stays in the stored suffix so an admitted slot has
    /// something to feed. The best idle slot is chosen (continue beats empty
    /// beats back; longer reuse, then longer idle, break ties; of equally
    /// preferred slots the scan keeps the last). A continuation needs no
    /// state transfer; otherwise the longest cached prefix of the stem is
    /// checked out and the displaced content, if any, is backed into the
    /// cache first.
    pub fn queue(&mut self, context: GenerateContext) -> (r: (SlotResult, AdmitOps))
        requires
            old(self).wf(),
            context@.admissible(),
        ensures
            final (self).wf(),
            final (self).slots@.len() == old(self).slots@.len(),
            final (self).max_runtime_batch == old(self).max_runtime_batch,
            ({
                let full = context@.prefix + context@.suffix;
                let stem = full.take(full.len() - 1);
                match r.0 {
                    SlotResult::Error => {
                        &&& full.len() == 0
                        &&& *final (self) == *old(self)
                        &&& r.1 == AdmitOps { back: None, load: None }
                    },
                    SlotResult::Failure(c) => {
                        &&& full.len() > 0
                        &&& forall|j: int|
                            0 <= j < old(self).slots@.len() ==> !(old(self).slots@[j] is Idle)
                        &&& *final (self) == *old(self)
                        &&& r.1 == AdmitOps { back: None, load: None }
                        &&& same_request(c@, context@)
                        &&& c@.prefix.len() == 0
                        &&& c@.suffix == full
                        &&& c@.admissible()
                    },
                    SlotResult::Success(b) => {
                        &&& full.len() > 0
                        &&& best_idle(old(self).slots@, stem, b as int)
                        &&& idle_content(old(self).slots@[b as int]).len() > 0
                        &&& is_prefix(idle_content(old(self).slots@[b as int]), stem)
                        &&& final (self).slots@ == old(self).slots@.update(
                            b as int,
                            final (self).slots@[b as int],
                        )
                        &&& final (self).slots@[b as int] is Wait
                        &&& same_request(wait_ctx(final (self).slots@[b as int]), context@)
                        &&& wait_ctx(final (self).slots@[b as int]).prefix == idle_content(
                            old(self).slots@[b as int],
                        )
                        &&& wait_ctx(final (self).slots@[b as int]).prefix + wait_ctx(
                            final (self).slots@[b as int],
                        ).suffix == full
                        &&& final (self).cache == old(self).cache
                        &&& r.1 == AdmitOps { back: None, load: None }
                    },
                    SlotResult::Fault(b) => {
                        &&& full.len() > 0
                        &&& best_idle(old(self).slots@, stem, b as int)
                        &&& !(idle_content(old(self).slots@[b as int]).len() > 0 && is_prefix(
                            idle_content(old(self).slots@[b as int]),
                            stem,
                        ))
                        &&& final (self).slots@ == old(self).slots@.update(
                            b as int,
                            final (self).slots@[b as int],
                        )
                        &&& final (self).slots@[b as int] is Wait
                        &&& same_request(wait_ctx(final (self).slots@[b as int]), context@)
                        &&& wait_ctx(final (self).slots@[b as int]).prefix + wait_ctx(
                            final (self).slots@[b as int],
                        ).suffix == full
                        &&& longest_cached(
                            old(self).cache@,
                            stem,
                            wait_ctx(final (self).slots@[b as int]).prefix,
                        )
                        &&& r.1.load == Some(
                            if wait_ctx(final (self).slots@[b as int]).prefix.len() > 0 {
                                LoadSource::Cached(
                                    old(self).cache@[wait_ctx(final (self).slots@[b as int]).prefix],
                                )
                            } else {
                                LoadSource::Fresh
                            },
                        )
                        &&& if idle_content(old(self).slots@[b as int]).len() == 0 {
                            final (self).cache@ == old(self).cache@ && r.1.back == None::<u64>
                        } else {
                            final (self).cache@ == old(self).cache@.insert(
                                idle_content(old(self).slots@[b as int]),
                                old(self).cache.next(),
                            ) && r.1.back == Some(old(self).cache.next())
                        }
                    },
                }
            }),
    {
        // the full input; its last token must stay in the suffix, else the
        // slot would loop with nothing to feed
        let mut full: Vec<u16> = dup_vec(&context.prefix.0);
        let mut sfx = dup_vec(&context.suffix.0);
        let mut si: usize = 0;
        let sn = sfx.len();
        while si < sn
            invariant
                si <= sn,
                sn == sfx@.len(),
                sfx@ == context@.suffix,
                full@ == context@.prefix + sfx@.subrange(0, si as int),
            decreases sn - si,
        {
            full.push(sfx[si]);
            assert(full@ =~= context@.prefix + sfx@.subrange(0, si + 1));
            si += 1;
        }
        assert(full@ =~= context@.prefix + context@.suffix);
        let ghost full_s = full@;
        if full.len() == 0 {
            return (SlotResult::Error, AdmitOps { back: None, load: None });
        }
        let stem_len = full.len() - 1;
        let full_t = Tokens(full);
        let stem_t = full_t.slice(0, stem_len);
        let ghost stem = full_s.take(full_s.len() - 1);
        assert(stem_t@ =~= stem);

        // pick the best idle slot: continue > empty > back, longer reuse
        // first, then the longer-idle slot; the scan keeps the last of equals
        let n = self.slots.len();
        let mut best: usize = 0;
        let mut have: bool = false;
        let mut best_choice = SlotChoice::Back(0);
        let mut best_since: u64 = 0;
        let mut i: usize = 0;
        while i < n
            invariant
                i <= n,
                n == self.slots@.len(),
                stem_t@ == stem,
                have ==> best < i && self.slots@[best as int] is Idle && best_choice == classify(
                    best as int,
                    idle_content(self.slots@[best as int]),
                    stem,
                ) && best_since == idle_since(self.slots@[best as int]),
                have ==> forall|j: int|
                    0 <= j < i && self.slots@[j] is Idle ==> slot_ge(self.slots@, stem, best as int, j),
                !have ==> forall|j: int| 0 <= j < i ==> !(self.slots@[j] is Idle),
            decreases n - i,
        {
            let cur_choice: SlotChoice;
            let cur_since: u64;
            let mut cur_idle = false;
            match &self.slots[i] {
                SlotState::Idle(content, since) => {
                    cur_idle = true;
                    cur_since = *since;
                    if content.is_empty() {
                        cur_choice = SlotChoice::Empty(i);
                    } else if stem_t.starts_with(content) {
                        cur_choice = SlotChoice::Continue(i, content.len());
                    } else {
                        cur_choice = SlotChoice::Back(i);
                    }
                    assert(cur_choice == classify(
                        i as int,
                        idle_content(self.slots@[i as int]),
                        stem,
                    ));
                },
                _ => {
                    cur_choice = SlotChoice::Back(0);
                    cur_since = 0;
                },
            }
            if cur_idle {
                let replace: bool;
                if !have {
                    replace = true;
                } else {
                    let c = cur_choice.cmp(&best_choice);
                    replace = match c {
                        core::cmp::Ordering::Greater => true,
                        core::cmp::Ordering::Equal => cur_since <= best_since,
                        core::cmp::Ordering::Less => false,
                    };
                    proof {
                        if !replace {
                            // the order is total: not replacing means the
                            // current best stays at least as preferred
                            assert(choice_ge(best_choice, best_since, cur_choice, cur_since));
                        }
                    }
                }
                if replace {
                    proof {
                        if have {
                            assert forall|j: int|
                                0 <= j < i + 1 && self.slots@[j] is Idle implies slot_ge(
                                self.slots@,
                                stem,
                                i as int,
                                j,
                            ) by {
                                if j < i {
                                    assert(slot_ge(self.slots@, stem, best as int, j));
                                }
                            }
                        }
                    }
                    best = i;
                    best_choice = cur_choice;
                    best_since = cur_since;
                    have = true;
                }
            }
            i += 1;
        }

        if !have {
            let c = GenerateContext {
                prefix: Tokens::empty(),
                suffix: full_t,
                ..context
            };
            assert(c@.prefix + c@.suffix =~= full_s);
            assert(c@.admissible());
            return (SlotResult::Failure(Box::new(c)), AdmitOps { back: None, load: None });
        }

        let b = best;
        match best_choice {
            SlotChoice::Continue(_, k) => {
                // the slot already holds full[..k]; re-split there
                assert(is_prefix(idle_content(self.slots@[b as int]), stem));
                assert(k == idle_content(self.slots@[b as int]).len());
                assert(k <= stem_len);
                let prefix = full_t.slice(0, k);
                let suffix = full_t.slice(k, full_t.len());
                proof {
                    assert(prefix@ =~= idle_content(self.slots@[b as int]));
                    assert(prefix@ + suffix@ =~= full_s);
                }
                let c = GenerateContext { prefix, suffix, ..context };
                assert(c@.admissible());
                self.slots.set(b, SlotState::Wait(Box::new(c)));
                (SlotResult::Success(b), AdmitOps { back: None, load: None })
            },
            SlotChoice::Empty(_) => {
                let (p, src) = self.cache.checkout(&stem_t);
                let k = p.len();
                assert(k <= stem_len);
                let prefix = full_t.slice(0, k);
                let suffix = full_t.slice(k, full_t.len());
                proof {
                    assert(prefix@ =~= p@);
                    assert(prefix@ + suffix@ =~= full_s);
                }
                let c = GenerateContext { prefix, suffix, ..context };
                assert(c@.admissible());
                self.slots.set(b, SlotState::Wait(Box::new(c)));
                let load = match src {
                    Some(h) => LoadSource::Cached(h),
                    None => LoadSource::Fresh,
                };
                (SlotResult::Fault(b), AdmitOps { back: None, load: Some(load) })
            },
            SlotChoice::Back(_) => {
                // check out against the cache as it stands, then back the
                // displaced content under a fresh handle
                let content = match &self.slots[b] {
                    SlotState::Idle(content, _) => content.duplicate(),
                    _ => Tokens::empty(),
                };
                let (p, src) = self.cache.checkout(&stem_t);
                let back_handle = self.cache.insert_fresh(&content);
                let k = p.len();
                assert(k <= stem_len);
                let prefix = full_t.slice(0, k);
                let suffix = full_t.slice(k, full_t.len());
                proof {
                    assert(prefix@ =~= p@);
                    assert(prefix@ + suffix@ =~= full_s);
                }
                let c = GenerateContext { prefix, suffix, ..context };
                assert(c@.admissible());
                self.slots.set(b, SlotState::Wait(Box::new(c)));
                let load = match src {
                    Some(h) => LoadSource::Cached(h),
                    None => LoadSource::Fresh,
                };
                (SlotResult::Fault(b), AdmitOps { back: Some(back_handle), load: Some(load) })
            },
        }
    }
}


/// Whether a byte sequence is valid UTF-8, as `core::str::from_utf8` decides
/// it.
pub uninterp spec fn is_utf8(s: Seq<u8>) -> bool;

/// Relies on core::str::from_utf8: it returns `Ok` exactly on valid UTF-8.
#[verifier::external_body]
fn utf8_ok(v: &Vec<u8>) -> (r: bool)
    ensures
        r == is_utf8(v@),
{
    core::str::from_utf8(&v[..]).is_ok()
}

/// What the model runtime reports for one slot after a step: how many of the
/// fed tokens it left unconsumed, the sampled token (none while a prefill is
/// still chunking) with its decoded bytes, and whether the caller's sink has
/// disconnected.
#[derive(Debug)]
pub struct StepResult {
    pub remaining: usize,
    pub token: Option<u16>,
    pub word: Vec<u8>,
    pub disconnected: bool,
}

/// The mathematical shape of a step result.
pub struct StepResultView {
    pub remaining: usize,
    pub token: Option<u16>,
    pub word: Seq<u8>,
    pub disconnected: bool,
}

impl View for StepResult {
    type V = StepResultView;

    open spec fn view(&self) -> StepResultView {
        StepResultView {
            remaining: self.remaining,
            token: self.token,
            word: self.word@,
            disconnected: self.disconnected,
        }
    }
}

/// The penalty-magnitude change the caller applies after a sampled token:
/// add the frequency penalty to an existing entry, or set a fresh entry to
/// the presence penalty.
#[derive(Debug, Clone, Copy, PartialEq, Eq, Structural)]
pub enum PenaltyBump {
    Frequency(u16),
    Presence(u16),
}

/// What one slot got out of a tick.
#[derive(Debug)]
pub enum SlotOutcome {
    /// The slot was not advanced (no live context).
    Skip,
    /// The slot advanced: the events owed to its sink, in order, and the
    /// penalty bookkeeping. Every advanced slot first decays all its penalty
    /// magnitudes; `bump` then adjusts the sampled token's entry.
    Advanced { events: Vec<Token>, bump: Option<PenaltyBump> },
}

/// How one step transforms a context: the prefix/suffix split moves to what
/// the runtime consumed; a sampled token is appended to the suffix (to feed
/// next tick), the sampled list, and the penalty keys; its decoded bytes run
/// through stop matching and UTF-8-safe streaming.
pub open spec fn advance_rel(
    o: GenerateContextView,
    r: StepResultView,
    gstops: Seq<Seq<u8>>,
    n: GenerateContextView,
    events: Seq<Token>,
    done: bool,
    bump: Option<PenaltyBump>,
) -> bool {
    let full = o.prefix + o.suffix;
    let consumed = full.len() - r.remaining;
    &&& n.prompt_tokens == o.prompt_tokens
    &&& n.max_tokens == o.max_tokens
    &&& n.stop == o.stop
    &&& n.embed == o.embed
    &&& n.sender == o.sender
    &&& match r.token {
        None => {
            &&& n.prefix == full.take(consumed as int)
            &&& n.suffix == full.skip(consumed as int)
            &&& n.penalties == o.penalties
            &&& n.model_text == o.model_text
            &&& n.output_buffer == o.output_buffer
            &&& n.model_tokens == o.model_tokens
            &&& events.len() == 0
            &&& !done
            &&& bump is None
        },
        Some(t) => {
            let buf = o.output_buffer + r.word;
            let stops = o.stop + gstops;
            let cut = best_cut(stops, buf);
            let safe = cut.0 as int;
            let matched = cut.1;
            let counter = TokenCounter {
                prompt_tokens: o.prompt_tokens.len() as usize,
                completion_tokens: (o.model_tokens.len() + 1) as usize,
                total_tokens: (o.prompt_tokens.len() + o.model_tokens.len() + 1) as usize,
            };
            &&& n.prefix == full
            &&& n.suffix == seq![t]
            &&& n.model_tokens == o.model_tokens.push(t)
            &&& n.model_text == o.model_text + r.word
            &&& n.penalties == if o.penalties.contains(t) {
                o.penalties
            } else {
                o.penalties.push(t)
            }
            &&& bump == Some(
                if o.penalties.contains(t) {
                    PenaltyBump::Frequency(t)
                } else {
                    PenaltyBump::Presence(t)
                },
            )
            &&& if r.disconnected {
                done && events.len() == 0 && n.output_buffer == buf
            } else if matched {
                &&& done
                &&& events.len() == 3
                &&& (events[0] matches Token::Token(w) && w@ == buf.take(safe))
                &&& (events[1] matches Token::Stop(reason, c) && reason == FinishReason::Stop
                    && c == counter)
                &&& events[2] is Done
                &&& n.output_buffer == buf
            } else if o.model_tokens.len() + 1 >= o.max_tokens {
                &&& done
                &&& events.len() == 2
                &&& (events[0] matches Token::Stop(reason, c) && reason == FinishReason::Length
                    && c == counter)
                &&& events[1] is Done
                &&& n.output_buffer == buf
            } else if is_utf8(buf.take(safe)) {
                &&& !done
                &&& events.len() == 1
                &&& (events[0] matches Token::Token(w) && w@ == buf.take(safe))
                &&& n.output_buffer == buf.skip(safe)
            } else {
                !done && events.len() == 0 && n.output_buffer == buf
            }
        },
    }
}

/// Advance one context by one step result.
pub fn advance_context(
    ctx: &mut GenerateContext,
    r: &StepResult,
    global_stops: &Vec<Vec<u8>>,
) -> (out: (Vec<Token>, bool, Option<PenaltyBump>))
    requires
        old(ctx)@.admissible(),
        r@.remaining <= old(ctx)@.prefix.len() + old(ctx)@.suffix.len(),
        r@.token is Some ==> r@.remaining == 0,
    ensures
        advance_rel(
            old(ctx)@,
            r@,
            global_stops@.map_values(|v: Vec<u8>| v@),
            final (ctx)@,
            out.0@,
            out.1,
            out.2,
        ),
        final (ctx)@.wf(),
        !out.1 ==> final (ctx)@.admissible(),
{
    let ghost o = ctx@;
    proof {
        // the split carries prompt ++ sampled, whose lengths fit the machine
        assert((o.prefix + o.suffix).len() == (o.prompt_tokens + o.model_tokens).len());
    }
    let total = ctx.prefix.len() + ctx.suffix.len();
    let consumed = total - r.remaining;

    // rebuild the full token run and re-split it at the consumed point
    let full: Vec<u16> = concat_vec(&ctx.prefix.0, &ctx.suffix.0);
    let full_t = Tokens(full);
    ctx.prefix = full_t.slice(0, consumed);
    ctx.suffix = full_t.slice(consumed, total);

    let t = match r.token {
        Some(t) => t,
        None => {
            proof {
                assert(ctx@.prefix + ctx@.suffix =~= o.prefix + o.suffix);
            }
            return (Vec::new(), false, None);
        },
    };

    // the runtime consumed everything before sampling; the new token is fed
    // back on the next tick
    assert(ctx.suffix@.len() == 0);
    ctx.suffix.0.push(t);
    ctx.model_tokens.push(t);
    proof {
        assert(ctx@.prefix =~= o.prefix + o.suffix);
        assert(ctx@.suffix =~= seq![t]);
        assert(ctx@.prefix + ctx@.suffix =~= (o.prefix + o.suffix) + seq![t]);
        assert(ctx@.prompt_tokens + ctx@.model_tokens =~= (o.prompt_tokens + o.model_tokens)
            + seq![t]);
    }

    let present = tokens_contain(&ctx.penalties, t);
    if !present {
        ctx.penalties.push(t);
        proof {
            assert(ctx.penalties@.no_duplicates());
        }
    }
    let bump = if present {
        PenaltyBump::Frequency(t)
    } else {
        PenaltyBump::Presence(t)
    };

    // append the decoded bytes to the transcript and the pending buffer
    ctx.model_text = concat_vec(&ctx.model_text, &r.word);
    ctx.output_buffer = concat_vec(&ctx.output_buffer, &r.word);

    let ghost stops = o.stop + global_stops@.map_values(|v: Vec<u8>| v@);
    let cut = find_cut(&ctx.output_buffer, &ctx.request.stop, global_stops);
    proof {
        assert(stops_view(ctx.request.stop@, global_stops@) =~= stops);
    }
    let safe = cut.0;
    let matched = cut.1;

    let prompt_len = ctx.prompt_tokens.len();
    let completion_len = ctx.model_tokens.len();
    let counter = TokenCounter {
        prompt_tokens: prompt_len,
        completion_tokens: completion_len,
        total_tokens: prompt_len + completion_len,
    };

    let mut events: Vec<Token> = Vec::new();
    let mut done = false;
    if r.disconnected {
        done = true;
    } else if matched {
        let piece = dup_range(&ctx.output_buffer, 0, safe);
        events.push(Token::Token(piece));
        events.push(Token::Stop(FinishReason::Stop, counter));
        events.push(Token::Done);
        done = true;
    } else if ctx.model_tokens.len() >= ctx.request.max_tokens {
        events.push(Token::Stop(FinishReason::Length, counter));
        events.push(Token::Done);
        done = true;
    } else {
        let piece = dup_range(&ctx.output_buffer, 0, safe);
        if utf8_ok(&piece) {
            events.push(Token::Token(piece));
            let rest = dup_range(&ctx.output_buffer, safe, ctx.output_buffer.len());
            ctx.output_buffer = rest;
        }
    }
    (events, done, Some(bump))
}


/// The precondition one payload puts on its step result: the runtime cannot
/// leave more tokens than it was fed, and a sampled token means everything
/// was consumed.
pub open spec fn commit_pre(p: Payload, r: StepResult) -> bool {
    match p {
        Payload::Busy(c) => {
            &&& c@.admissible()
            &&& r@.remaining <= c@.prefix.len() + c@.suffix.len()
            &&& (r@.token is Some ==> r@.remaining == 0)
        },
        _ => true,
    }
}

/// The transition of one payload through the per-slot update, given its step
/// result: a live context advances (and finishes into `Done` exactly when a
/// stop condition or a disconnect triggered); anything else is untouched.
pub open spec fn commit_slot_rel(
    op: Payload,
    r: StepResult,
    gstops: Seq<Seq<u8>>,
    np: Payload,
    out: SlotOutcome,
) -> bool {
    match op {
        Payload::Busy(c) => match out {
            SlotOutcome::Advanced { events, bump } => match np {
                Payload::Busy(c2) => advance_rel(c@, r@, gstops, c2@, events@, false, bump)
                    && c2@.admissible(),
                Payload::Done(c2) => advance_rel(c@, r@, gstops, c2@, events@, true, bump),
                Payload::Empty => false,
            },
            SlotOutcome::Skip => false,
        },
        _ => np == op && out is Skip,
    }
}

/// The payload at `i`, `Empty` beyond the end.
pub open spec fn pl_at(pl: Seq<Payload>, i: int) -> Payload {
    if 0 <= i < pl.len() {
        pl[i]
    } else {
        Payload::Empty
    }
}

/// The context of a finished payload.
pub open spec fn done_ctx(p: Payload) -> GenerateContextView {
    match p {
        Payload::Done(c) => c@,
        _ => arbitrary(),
    }
}

/// Slot `i` is reaped this tick: busy, with a finished payload.
pub open spec fn reaped(slots: Seq<SlotState>, pl: Seq<Payload>, i: int) -> bool {
    slots[i] is Busy && pl_at(pl, i) is Done
}

/// How many of the first `n` slots are reaped.
pub open spec fn reap_count(slots: Seq<SlotState>, pl: Seq<Payload>, n: int) -> int
    decreases n,
{
    if n <= 0 {
        0
    } else {
        reap_count(slots, pl, n - 1) + if reaped(slots, pl, n - 1) {
            1int
        } else {
            0int
        }
    }
}

/// Handle numbering saturates at the top, which no practical run reaches.
pub open spec fn sat_add(next: u64, k: int) -> u64 {
    if next + k <= u64::MAX {
        (next + k) as u64
    } else {
        u64::MAX
    }
}

/// The cache after the reap pass: each reaped slot's prefix inserted under
/// the next fresh handles, in slot order.
pub open spec fn reap_inserts(
    m: Map<Seq<u16>, u64>,
    slots: Seq<SlotState>,
    pl: Seq<Payload>,
    next: u64,
    n: int,
) -> Map<Seq<u16>, u64>
    decreases n,
{
    if n <= 0 {
        m
    } else {
        let rest = reap_inserts(m, slots, pl, next, n - 1);
        if reaped(slots, pl, n - 1) {
            rest.insert(done_ctx(pl_at(pl, n - 1)).prefix, sat_add(next, reap_count(slots, pl, n - 1)))
        } else {
            rest
        }
    }
}

/// Busy payloads whose slots are busy: the occupancy the reap pass leaves.
pub open spec fn live_busy_count(slots: Seq<SlotState>, pl: Seq<Payload>, n: int) -> int
    decreases n,
{
    if n <= 0 {
        0
    } else {
        live_busy_count(slots, pl, n - 1) + if slots[n - 1] is Busy && pl_at(pl, n - 1) is Busy {
            1int
        } else {
            0int
        }
    }
}

/// Waiting slots among the first `n`.
pub open spec fn wait_count(slots: Seq<SlotState>, n: int) -> int
    decreases n,
{
    if n <= 0 {
        0
    } else {
        wait_count(slots, n - 1) + if slots[n - 1] is Wait {
            1int
        } else {
            0int
        }
    }
}

/// Slot `i` is promoted this tick: waiting, and within the concurrency room.
pub open spec fn promoted(slots: Seq<SlotState>, remain: int, i: int) -> bool {
    slots[i] is Wait && wait_count(slots, i) < remain
}

/// A busy payload's context is admissible.
pub open spec fn busy_pl_ok(p: Payload) -> bool {
    match p {
        Payload::Busy(c) => c@.admissible(),
        _ => true,
    }
}

proof fn lemma_reap_count_bounds(slots: Seq<SlotState>, pl: Seq<Payload>, n: int)
    ensures
        0 <= reap_count(slots, pl, n) <= (if n >= 0 {
            n
        } else {
            0
        }),
    decreases n,
{
    if n > 0 {
        lemma_reap_count_bounds(slots, pl, n - 1);
    }
}

proof fn lemma_live_busy(pl: Seq<Payload>, slots: Seq<SlotState>, opl: Seq<Payload>, n: int)
    requires
        forall|j: int| 0 <= j < n ==> (pl[j] is Busy <==> (slots[j] is Busy && pl_at(opl, j) is Busy)),
    ensures
        busy_count(pl, n) == live_busy_count(slots, opl, n),
    decreases n,
{
    if n > 0 {
        lemma_live_busy(pl, slots, opl, n - 1);
    }
}

proof fn lemma_busy_count_zero(pl: Seq<Payload>, n: int)
    requires
        0 <= n <= pl.len(),
        busy_count(pl, n) == 0,
    ensures
        forall|j: int| 0 <= j < n ==> !(pl[j] is Busy),
    decreases n,
{
    if n > 0 {
        crate::slots::lemma_busy_count_bound(pl, n - 1);
        lemma_busy_count_zero(pl, n - 1);
    }
}

proof fn lemma_wait_count_agree(a: Seq<SlotState>, b: Seq<SlotState>, n: int)
    requires
        forall|j: int| 0 <= j < n ==> (a[j] is Wait <==> b[j] is Wait),
    ensures
        wait_count(a, n) == wait_count(b, n),
    decreases n,
{
    if n > 0 {
        lemma_wait_count_agree(a, b, n - 1);
    }
}

/// The per-tick plan handed back to the caller, all vectors aligned with the
/// slots: which slots to serialize under which fresh handles, which sinks are
/// owed an `Embed` of that snapshot and which a `Start`, the tokens to feed
/// each slot, and the busy occupancy after promotion. The caller performs
/// the serializations, sends the embeds, then the starts, then (when the
/// occupancy is non-zero) runs the model step.
pub struct TickPlan {
    pub backs: Vec<Option<u64>>,
    pub embeds: Vec<Option<u64>>,
    pub starts: Vec<Option<u64>>,
    pub inputs: Vec<Tokens>,
    pub occupancy: usize,
}


impl Runtime {
    /// The tokens among `penalties` that the caller must actually subtract a
    /// penalty for: the penalty-free ones are skipped.
    pub fn penalty_targets(&self, penalties: &Vec<u16>) -> (r: Vec<u16>)
        ensures
            r@ == penalties@.filter(|t: u16| !self.penalty_free.spec_is_free(t)),
    {
        self.penalty_free.targets(penalties)
    }

    /// Apply one model step to every live payload: re-split each context at
    /// what the runtime consumed, fold in the sampled token, match stop
    /// patterns and cut the stream at safe boundaries, and finish payloads
    /// whose generation ended. Slots are untouched: a finished payload turns
    /// `Done` and is reaped by the next tick's admission pass.
    pub fn commit(
        &self,
        payloads: &mut Vec<Payload>,
        results: &Vec<StepResult>,
        setting: &Setting,
    ) -> (outcomes: Vec<SlotOutcome>)
        requires
            results@.len() == old(payloads)@.len(),
            forall|i: int|
                0 <= i < old(payloads)@.len() ==> commit_pre(
                    #[trigger] old(payloads)@[i],
                    results@[i],
                ),
        ensures
            final (payloads)@.len() == old(payloads)@.len(),
            outcomes@.len() == old(payloads)@.len(),
            forall|i: int|
                0 <= i < old(payloads)@.len() ==> commit_slot_rel(
                    #[trigger] old(payloads)@[i],
                    results@[i],
                    setting.stop@.map_values(|v: Vec<u8>| v@),
                    final (payloads)@[i],
                    outcomes@[i],
                ),
            busy_count(final (payloads)@, final (payloads)@.len() as int) <= busy_count(
                old(payloads)@,
                old(payloads)@.len() as int,
            ),
    {
        let ghost gstops = setting.stop@.map_values(|v: Vec<u8>| v@);
        let n = payloads.len();
        let mut outcomes: Vec<SlotOutcome> = Vec::new();
        let mut i: usize = 0;
        while i < n
            invariant
                i <= n,
                n == old(payloads)@.len(),
                payloads@.len() == n,
                results@.len() == n,
                outcomes@.len() == i,
                gstops == setting.stop@.map_values(|v: Vec<u8>| v@),
                forall|j: int|
                    0 <= j < n ==> commit_pre(#[trigger] old(payloads)@[j], results@[j]),
                forall|j: int|
                    0 <= j < i ==> commit_slot_rel(
                        #[trigger] old(payloads)@[j],
                        results@[j],
                        gstops,
                        payloads@[j],
                        outcomes@[j],
                    ),
                forall|j: int| i <= j < n ==> payloads@[j] == old(payloads)@[j],
            decreases n - i,
        {
            let mut p = Payload::Empty;
            payloads.set_and_swap(i, &mut p);
            match p {
                Payload::Busy(c) => {
                    let mut cc: GenerateContext = *c;
                    let (events, done, bump) = advance_context(&mut cc, &results[i], &setting.stop);
                    let np = if done {
                        Payload::Done(Box::new(cc))
                    } else {
                        Payload::Busy(Box::new(cc))
                    };
                    payloads.set(i, np);
                    outcomes.push(SlotOutcome::Advanced { events, bump });
                },
                other => {
                    let mut o2 = other;
                    payloads.set_and_swap(i, &mut o2);
                    outcomes.push(SlotOutcome::Skip);
                },
            }
            i += 1;
        }
        proof {
            assert forall|j: int| 0 <= j < n implies (payloads@[j] is Busy ==> old(payloads)@[j]
                is Busy) by {
                assert(commit_slot_rel(
                    old(payloads)@[j],
                    results@[j],
                    gstops,
                    payloads@[j],
                    outcomes@[j],
                ));
            }
            crate::slots::lemma_busy_count_mono(old(payloads)@, payloads@, n as int);
        }
        outcomes
    }
}


/// After a reap pass, slot `j` was reaped: idle under the finished context's
/// prefix, its payload cleared, its snapshot handle recorded, and the sink
/// noted if an embedding is owed.
pub open spec fn reaped_slot_after(
    slots: Seq<SlotState>,
    pl: Seq<Payload>,
    backs: Seq<Option<u64>>,
    embeds: Seq<Option<u64>>,
    oslots: Seq<SlotState>,
    opl: Seq<Payload>,
    next0: u64,
    now: u64,
    j: int,
) -> bool {
    &&& slots[j] is Idle
    &&& idle_content(slots[j]) == done_ctx(pl_at(opl, j)).prefix
    &&& idle_since(slots[j]) == now
    &&& pl[j] is Empty
    &&& backs[j] == Some(sat_add(next0, reap_count(oslots, opl, j)))
    &&& embeds[j] == (if done_ctx(pl_at(opl, j)).embed {
        Some(done_ctx(pl_at(opl, j)).sender)
    } else {
        None::<u64>
    })
}

/// After a reap pass, slot `j` was kept: the slot unchanged, the payload
/// kept only if its slot is busy, and nothing owed.
pub open spec fn kept_slot_after(
    slots: Seq<SlotState>,
    pl: Seq<Payload>,
    backs: Seq<Option<u64>>,
    embeds: Seq<Option<u64>>,
    oslots: Seq<SlotState>,
    opl: Seq<Payload>,
    j: int,
) -> bool {
    &&& slots[j] == oslots[j]
    &&& pl[j] == (if oslots[j] is Busy {
        pl_at(opl, j)
    } else {
        Payload::Empty
    })
    &&& backs[j] is None
    &&& embeds[j] is None
}

/// After a promote pass, slot `j` was promoted: busy, its waiting context
/// moved into the payload, and a `Start` owed to its sink.
pub open spec fn promoted_slot_after(
    slots: Seq<SlotState>,
    pl: Seq<Payload>,
    starts: Seq<Option<u64>>,
    base: Seq<SlotState>,
    j: int,
) -> bool {
    &&& slots[j] is Busy
    &&& (pl[j] matches Payload::Busy(c) && c@ == wait_ctx(base[j]) && c@.admissible())
    &&& starts[j] == Some(wait_ctx(base[j]).sender)
}

/// After a promote pass, slot `j` was left alone.
pub open spec fn skipped_slot_after(
    slots: Seq<SlotState>,
    pl: Seq<Payload>,
    starts: Seq<Option<u64>>,
    base: Seq<SlotState>,
    basep: Seq<Payload>,
    j: int,
) -> bool {
    &&& slots[j] == base[j]
    &&& pl[j] == basep[j]
    &&& starts[j] is None
}

impl Runtime {
    /// The reap pass of a tick: size the payload array to the batch, drop
    /// payloads of externally reset slots, and return every finished payload's
    /// slot to idle, snapshotting its state into the cache under a fresh
    /// handle. Returns, per slot, the handle to serialize under and the sink
    /// owed an `Embed` of that snapshot.
    #[verifier::rlimit(100)]
    #[verifier::spinoff_prover]
    #[verifier::loop_isolation(false)]
    fn reap_pass(&mut self, payloads: &mut Vec<Payload>, now: u64) -> (r: (
        Vec<Option<u64>>,
        Vec<Option<u64>>,
    ))
        requires
            old(self).wf(),
        ensures
            final (self).wf(),
            final (self).slots@.len() == old(self).slots@.len(),
            final (self).max_runtime_batch == old(self).max_runtime_batch,
            final (self).embed_layer == old(self).embed_layer,
            final (self).penalty_free == old(self).penalty_free,
            final (payloads)@.len() == old(self).slots@.len(),
            r.0@.len() == old(self).slots@.len(),
            r.1@.len() == old(self).slots@.len(),
            final (self).cache@ == reap_inserts(
                old(self).cache@,
                old(self).slots@,
                old(payloads)@,
                old(self).cache.next(),
                old(self).slots@.len() as int,
            ),
            forall|j: int|
                0 <= j < old(self).slots@.len() && reaped(old(self).slots@, old(payloads)@, j)
                    ==> #[trigger] reaped_slot_after(
                    final (self).slots@,
                    final (payloads)@,
                    r.0@,
                    r.1@,
                    old(self).slots@,
                    old(payloads)@,
                    old(self).cache.next(),
                    now,
                    j,
                ),
            forall|j: int|
                0 <= j < old(self).slots@.len() && !reaped(old(self).slots@, old(payloads)@, j)
                    ==> #[trigger] kept_slot_after(
                    final (self).slots@,
                    final (payloads)@,
                    r.0@,
                    r.1@,
                    old(self).slots@,
                    old(payloads)@,
                    j,
                ),
    {
        let ghost oslots = self.slots@;
        let ghost opl = payloads@;
        let ghost next0 = self.cache.next();
        let ghost ocache = self.cache@;
        let bn = self.slots.len();

        // the payload array always spans the whole batch
        if payloads.len() > bn {
            payloads.truncate(bn);
        }
        proof {
            assert forall|j: int| 0 <= j < payloads@.len() implies payloads@[j] == pl_at(opl, j)
                by {}
        }
        while payloads.len() < bn
            invariant
                payloads@.len() <= bn,
                opl.len() <= payloads@.len() || payloads@.len() >= bn,
                forall|j: int| 0 <= j < payloads@.len() ==> payloads@[j] == pl_at(opl, j),
            decreases bn - payloads@.len(),
        {
            payloads.push(Payload::Empty);
        }

        // payloads of slots that are not busy were externally reset: drop them
        let mut i: usize = 0;
        while i < bn
            invariant
                i <= bn,
                payloads@.len() == bn,
                forall|j: int|
                    0 <= j < i ==> payloads@[j] == (if oslots[j] is Busy {
                        pl_at(opl, j)
                    } else {
                        Payload::Empty
                    }),
                forall|j: int| i <= j < bn ==> payloads@[j] == pl_at(opl, j),
            decreases bn - i,
        {
            let busy_slot = matches!(&self.slots[i], SlotState::Busy);
            if !busy_slot {
                payloads.set(i, Payload::Empty);
            }
            i += 1;
        }

        let mut backs: Vec<Option<u64>> = Vec::new();
        let mut embeds: Vec<Option<u64>> = Vec::new();
        let mut k: usize = 0;
        while k < bn
            invariant
                k <= bn,
                backs@.len() == k,
                embeds@.len() == k,
                forall|j: int| 0 <= j < k ==> (#[trigger] backs@[j]) is None,
                forall|j: int| 0 <= j < k ==> (#[trigger] embeds@[j]) is None,
            decreases bn - k,
        {
            backs.push(None);
            embeds.push(None);
            k += 1;
        }

        let mut i: usize = 0;
        while i < bn
            invariant
                i <= bn,
                self.slots@.len() == bn,
                payloads@.len() == bn,
                backs@.len() == bn,
                embeds@.len() == bn,
                self.max_runtime_batch == old(self).max_runtime_batch,
                self.embed_layer == old(self).embed_layer,
                self.penalty_free == old(self).penalty_free,
                self.cache@ == reap_inserts(ocache, oslots, opl, next0, i as int),
                self.cache.next() == sat_add(next0, reap_count(oslots, opl, i as int)),
                forall|j: int|
                    0 <= j < i && reaped(oslots, opl, j) ==> #[trigger] reaped_slot_after(
                        self.slots@,
                        payloads@,
                        backs@,
                        embeds@,
                        oslots,
                        opl,
                        next0,
                        now,
                        j,
                    ),
                forall|j: int|
                    0 <= j < bn && !(j < i && reaped(oslots, opl, j))
                        ==> #[trigger] kept_slot_after(
                        self.slots@,
                        payloads@,
                        backs@,
                        embeds@,
                        oslots,
                        opl,
                        j,
                    ),
                forall|j: int| 0 <= j < bn ==> slot_ok(#[trigger] self.slots@[j]),
            decreases bn - i,
        {
            proof {
                assert(kept_slot_after(self.slots@, payloads@, backs@, embeds@, oslots, opl,
                    i as int));
            }
            let ghost slots_pre = self.slots@;
            let ghost pl_pre = payloads@;
            let ghost backs_pre = backs@;
            let ghost embeds_pre = embeds@;
            let mut p = Payload::Empty;
            payloads.set_and_swap(i, &mut p);
            let taken = p.take();
            match taken {
                Some(c) => {
                    proof {
                        assert(self.slots@[i as int] == oslots[i as int]);
                        assert(reaped(oslots, opl, i as int));
                    }
                    let ctx = *c;
                    let pfx = ctx.prefix;
                    let h = self.cache.insert_fresh(&pfx);
                    backs.set(i, Some(h));
                    if ctx.request.embed {
                        embeds.set(i, Some(ctx.sender));
                    }
                    self.slots.set(i, SlotState::Idle(pfx, now));
                    proof {
                        assert(reap_count(oslots, opl, i + 1) == reap_count(oslots, opl, i as int)
                            + 1);
                        assert(self.cache@ =~= reap_inserts(ocache, oslots, opl, next0, i + 1));
                        lemma_reap_count_bounds(oslots, opl, i as int);
                        assert(self.cache.next() == sat_add(next0, reap_count(oslots, opl, i + 1)));
                        assert forall|j: int| 0 <= j < bn && j != i implies ((
                        #[trigger] self.slots@[j]) == slots_pre[j] && payloads@[j] == pl_pre[j]
                            && backs@[j] == backs_pre[j] && embeds@[j] == embeds_pre[j]) by {}
                        assert(reaped_slot_after(
                            self.slots@,
                            payloads@,
                            backs@,
                            embeds@,
                            oslots,
                            opl,
                            next0,
                            now,
                            i as int,
                        ));
                        assert forall|j: int|
                            0 <= j < i && reaped(oslots, opl, j) implies
                            #[trigger] reaped_slot_after(self.slots@, payloads@, backs@, embeds@,
                            oslots, opl, next0, now, j) by {
                            assert(reaped_slot_after(slots_pre, pl_pre, backs_pre, embeds_pre,
                                oslots, opl, next0, now, j));
                        }
                        assert forall|j: int|
                            0 <= j < bn && j != i && !(j < i && reaped(oslots, opl, j)) implies
                            #[trigger] kept_slot_after(self.slots@, payloads@, backs@, embeds@,
                            oslots, opl, j) by {
                            assert(kept_slot_after(slots_pre, pl_pre, backs_pre, embeds_pre,
                                oslots, opl, j));
                        }
                    }
                },
                None => {
                    proof {
                        assert(self.slots@[i as int] == oslots[i as int]);
                        assert(!reaped(oslots, opl, i as int));
                    }
                    payloads.set_and_swap(i, &mut p);
                    proof {
                        assert(reap_count(oslots, opl, i + 1) == reap_count(
                            oslots,
                            opl,
                            i as int,
                        ));
                        assert(self.cache@ =~= reap_inserts(ocache, oslots, opl, next0, i + 1));
                        assert(payloads@[i as int] == pl_pre[i as int]);
                        assert forall|j: int| 0 <= j < bn && j != i implies ((
                        #[trigger] self.slots@[j]) == slots_pre[j] && payloads@[j] == pl_pre[j]
                            && backs@[j] == backs_pre[j] && embeds@[j] == embeds_pre[j]) by {}
                        assert(kept_slot_after(
                            self.slots@,
                            payloads@,
                            backs@,
                            embeds@,
                            oslots,
                            opl,
                            i as int,
                        ));
                        assert forall|j: int|
                            0 <= j < i && reaped(oslots, opl, j) implies
                            #[trigger] reaped_slot_after(self.slots@, payloads@, backs@, embeds@,
                            oslots, opl, next0, now, j) by {
                            assert(reaped_slot_after(slots_pre, pl_pre, backs_pre, embeds_pre,
                                oslots, opl, next0, now, j));
                        }
                        assert forall|j: int|
                            0 <= j < bn && j != i && !(j < i && reaped(oslots, opl, j)) implies
                            #[trigger] kept_slot_after(self.slots@, payloads@, backs@, embeds@,
                            oslots, opl, j) by {
                            assert(kept_slot_after(slots_pre, pl_pre, backs_pre, embeds_pre,
                                oslots, opl, j));
                        }
                    }
                },
            }
            i += 1;
        }
        (backs, embeds)
    }

    /// The promote pass of a tick: waiting slots become busy, in slot order,
    /// up to the concurrency room left by the running payloads. Returns, per
    /// slot, the sink owed a `Start`, and how many slots were promoted.
    #[verifier::rlimit(100)]
    #[verifier::loop_isolation(false)]
    fn promote_pass(&mut self, payloads: &mut Vec<Payload>, occ: usize) -> (r: (
        Vec<Option<u64>>,
        usize,
    ))
        requires
            old(self).wf(),
            old(payloads)@.len() == old(self).slots@.len(),
            occ as int == busy_count(old(payloads)@, old(payloads)@.len() as int),
            forall|j: int|
                0 <= j < old(payloads)@.len() ==> ((#[trigger] old(payloads)@[j]) is Busy ==> !(
                old(self).slots@[j] is Wait)),
        ensures
            final (self).wf(),
            final (self).slots@.len() == old(self).slots@.len(),
            final (self).max_runtime_batch == old(self).max_runtime_batch,
            final (self).embed_layer == old(self).embed_layer,
            final (self).penalty_free == old(self).penalty_free,
            final (self).cache == old(self).cache,
            final (payloads)@.len() == old(self).slots@.len(),
            r.0@.len() == old(self).slots@.len(),
            ({
                let bn = old(self).slots@.len() as int;
                let oslots = old(self).slots@;
                let cap = old(self).max_runtime_batch as int;
                let remain = if occ > cap {
                    0int
                } else {
                    cap - occ
                };
                &&& forall|j: int|
                    0 <= j < bn && promoted(oslots, remain, j) ==> #[trigger] promoted_slot_after(
                        final (self).slots@,
                        final (payloads)@,
                        r.0@,
                        oslots,
                        j,
                    )
                &&& forall|j: int|
                    0 <= j < bn && !promoted(oslots, remain, j) ==> #[trigger] skipped_slot_after(
                        final (self).slots@,
                        final (payloads)@,
                        r.0@,
                        oslots,
                        old(payloads)@,
                        j,
                    )
                &&& r.1 as int == (if wait_count(oslots, bn) > remain {
                    remain
                } else {
                    wait_count(oslots, bn)
                })
                &&& busy_count(final (payloads)@, bn) == occ + r.1
            }),
    {
        let ghost mids = self.slots@;
        let ghost midp = payloads@;
        let bn = self.slots.len();
        let cap = self.max_runtime_batch;
        let remain: usize = if occ > cap {
            0
        } else {
            cap - occ
        };
        let ghost remain_g = remain as int;

        let mut starts: Vec<Option<u64>> = Vec::new();
        let mut k: usize = 0;
        while k < bn
            invariant
                k <= bn,
                starts@.len() == k,
                forall|j: int| 0 <= j < k ==> (#[trigger] starts@[j]) is None,
            decreases bn - k,
        {
            starts.push(None);
            k += 1;
        }

        let mut promoted_cnt: usize = 0;
        let mut i: usize = 0;
        while i < bn
            invariant
                i <= bn,
                self.slots@.len() == bn,
                payloads@.len() == bn,
                starts@.len() == bn,
                self.max_runtime_batch == old(self).max_runtime_batch,
                self.embed_layer == old(self).embed_layer,
                self.penalty_free == old(self).penalty_free,
                self.cache == old(self).cache,
                promoted_cnt <= remain,
                promoted_cnt as int == (if wait_count(mids, i as int) > remain_g {
                    remain_g
                } else {
                    wait_count(mids, i as int)
                }),
                busy_count(payloads@, bn as int) == occ + promoted_cnt,
                forall|j: int|
                    0 <= j < i && promoted(mids, remain_g, j) ==> #[trigger] promoted_slot_after(
                        self.slots@,
                        payloads@,
                        starts@,
                        mids,
                        j,
                    ),
                forall|j: int|
                    0 <= j < bn && !(j < i && promoted(mids, remain_g, j))
                        ==> #[trigger] skipped_slot_after(
                        self.slots@,
                        payloads@,
                        starts@,
                        mids,
                        midp,
                        j,
                    ),
                forall|j: int| 0 <= j < bn ==> slot_ok(#[trigger] self.slots@[j]),
            decreases bn - i,
        {
            proof {
                assert(skipped_slot_after(self.slots@, payloads@, starts@, mids, midp, i as int));
                assert(self.slots@[i as int] == mids[i as int]);
                assert(wait_count(mids, i + 1) == wait_count(mids, i as int) + (if mids[i as int]
                    is Wait {
                    1int
                } else {
                    0int
                }));
            }
            proof {
                assert(skipped_slot_after(self.slots@, payloads@, starts@, mids, midp, i as int));
                if mids[i as int] is Wait {
                    assert(midp[i as int] == old(payloads)@[i as int]);
                    assert(old(payloads)@[i as int] is Busy ==> !(old(self).slots@[i as int]
                        is Wait));
                }
            }
            let ghost slots_pre = self.slots@;
            let ghost pl_pre = payloads@;
            let ghost starts_pre = starts@;
            let is_wait = matches!(&self.slots[i], SlotState::Wait(_));
            if is_wait && promoted_cnt < remain {
                let mut sl = SlotState::Busy;
                self.slots.set_and_swap(i, &mut sl);
                match sl {
                    SlotState::Wait(c) => {
                        starts.set(i, Some(c.sender));
                        proof {
                            crate::slots::lemma_busy_count_update(
                                payloads@,
                                i as int,
                                Payload::Busy(c),
                                bn as int,
                            );
                            assert(!(midp[i as int] is Busy));
                        }
                        payloads.set(i, Payload::Busy(c));
                        promoted_cnt += 1;
                        proof {
                            assert forall|j: int| 0 <= j < bn && j != i implies ((
                            #[trigger] self.slots@[j]) == slots_pre[j] && payloads@[j] == pl_pre[j]
                                && starts@[j] == starts_pre[j]) by {}
                            assert(promoted_slot_after(
                                self.slots@,
                                payloads@,
                                starts@,
                                mids,
                                i as int,
                            ));
                            assert forall|j: int|
                                0 <= j < i && promoted(mids, remain_g, j) implies
                                #[trigger] promoted_slot_after(self.slots@, payloads@, starts@,
                                mids, j) by {
                                assert(promoted_slot_after(slots_pre, pl_pre, starts_pre, mids, j));
                            }
                            assert forall|j: int|
                                0 <= j < bn && j != i && !(j < i && promoted(mids, remain_g, j))
                                    implies #[trigger] skipped_slot_after(self.slots@, payloads@,
                                starts@, mids, midp, j) by {
                                assert(skipped_slot_after(slots_pre, pl_pre, starts_pre, mids,
                                    midp, j));
                            }
                        }
                    },
                    _ => {
                        proof {
                            assert(false);
                        }
                    },
                }
            }
            i += 1;
        }
        (starts, promoted_cnt)
    }

    /// One admission pass of the tick: resize the payload array to the batch,
    /// drop payloads of externally reset slots, reap every finished payload
    /// (its slot turns idle under its prefix and its state is snapshotted
    /// into the cache under a fresh handle), then promote waiting slots, in
    /// slot order, up to the concurrency cap. Returns what the caller must
    /// do: the snapshots to take, the `Embed` and `Start` events owed, the
    /// model inputs, and the resulting occupancy — zero meaning no model
    /// call is needed at all.
    #[verifier::rlimit(100)]
    #[verifier::spinoff_prover]
    #[verifier::loop_isolation(false)]
    pub fn process(&mut self, payloads: &mut Vec<Payload>, now: u64) -> (plan: TickPlan)
        requires
            old(self).wf(),
            forall|i: int|
                0 <= i < old(payloads)@.len() ==> busy_pl_ok(#[trigger] old(payloads)@[i]),
        ensures
            final (self).wf(),
            final (self).slots@.len() == old(self).slots@.len(),
            final (self).max_runtime_batch == old(self).max_runtime_batch,
            final (self).embed_layer == old(self).embed_layer,
            final (self).penalty_free == old(self).penalty_free,
            final (payloads)@.len() == old(self).slots@.len(),
            plan.backs@.len() == old(self).slots@.len(),
            plan.embeds@.len() == old(self).slots@.len(),
            plan.starts@.len() == old(self).slots@.len(),
            plan.inputs@.len() == old(self).slots@.len(),
            final (self).cache@ == reap_inserts(
                old(self).cache@,
                old(self).slots@,
                old(payloads)@,
                old(self).cache.next(),
                old(self).slots@.len() as int,
            ),
            ({
                let bn = old(self).slots@.len() as int;
                let oslots = old(self).slots@;
                let opl = old(payloads)@;
                let cap = old(self).max_runtime_batch as int;
                let occ = live_busy_count(oslots, opl, bn);
                let remain = if occ > cap {
                    0int
                } else {
                    cap - occ
                };
                &&& forall|i: int|
                    0 <= i < bn && reaped(oslots, opl, i) ==> (#[trigger] reaped_slot_after(
                        final (self).slots@,
                        final (payloads)@,
                        plan.backs@,
                        plan.embeds@,
                        oslots,
                        opl,
                        old(self).cache.next(),
                        now,
                        i,
                    ) && plan.starts@[i] is None)
                &&& forall|i: int|
                    0 <= i < bn && promoted(oslots, remain, i) ==> (#[trigger] promoted_slot_after(
                        final (self).slots@,
                        final (payloads)@,
                        plan.starts@,
                        oslots,
                        i,
                    ) && plan.backs@[i] is None && plan.embeds@[i] is None)
                &&& forall|i: int|
                    0 <= i < bn && !reaped(oslots, opl, i) && !promoted(oslots, remain, i) ==> (
                    #[trigger] kept_slot_after(
                        final (self).slots@,
                        final (payloads)@,
                        plan.backs@,
                        plan.embeds@,
                        oslots,
                        opl,
                        i,
                    ) && plan.starts@[i] is None)
                &&& plan.occupancy as int == busy_count(final (payloads)@, bn)
                &&& (occ <= cap ==> plan.occupancy <= cap)
            }),
            forall|i: int|
                0 <= i < old(self).slots@.len() ==> !((#[trigger] final (payloads)@[i]) is Done),
            forall|i: int|
                0 <= i < old(self).slots@.len() ==> (final (payloads)@[i] is Busy
                    ==> #[trigger] final (self).slots@[i] is Busy),
            forall|i: int|
                0 <= i < old(self).slots@.len() ==> match #[trigger] final (payloads)@[i] {
                    Payload::Busy(c) => c@.admissible() && plan.inputs@[i]@ == c@.suffix,
                    _ => plan.inputs@[i]@.len() == 0,
                },
            plan.occupancy == 0 ==> forall|i: int|
                0 <= i < old(self).slots@.len() ==> (#[trigger] plan.inputs@[i])@.len() == 0,
    {
        let ghost oslots = self.slots@;
        let ghost opl = payloads@;
        let bn = self.slots.len();

        let (backs, embeds) = self.reap_pass(payloads, now);

        let ghost mids = self.slots@;
        let ghost midp = payloads@;
        proof {
            assert forall|j: int| 0 <= j < bn implies ((#[trigger] midp[j]) is Busy <==> (
            oslots[j] is Busy && pl_at(opl, j) is Busy)) by {
                if reaped(oslots, opl, j) {
                    assert(reaped_slot_after(mids, midp, backs@, embeds@, oslots, opl,
                        old(self).cache.next(), now, j));
                    assert(midp[j] is Empty);
                } else {
                    assert(kept_slot_after(mids, midp, backs@, embeds@, oslots, opl, j));
                }
            }
            assert forall|j: int| 0 <= j < bn implies ((#[trigger] midp[j]) is Busy ==> !(
            mids[j] is Wait)) by {
                if reaped(oslots, opl, j) {
                    assert(reaped_slot_after(mids, midp, backs@, embeds@, oslots, opl,
                        old(self).cache.next(), now, j));
                } else {
                    assert(kept_slot_after(mids, midp, backs@, embeds@, oslots, opl, j));
                }
            }
            assert forall|j: int| 0 <= j < bn implies ((#[trigger] mids[j]) is Wait <==> oslots[j]
                is Wait) by {
                if reaped(oslots, opl, j) {
                    assert(reaped_slot_after(mids, midp, backs@, embeds@, oslots, opl,
                        old(self).cache.next(), now, j));
                } else {
                    assert(kept_slot_after(mids, midp, backs@, embeds@, oslots, opl, j));
                }
            }
            assert forall|j: int| 0 <= j < bn implies (mids[j] is Wait ==> #[trigger] mids[j]
                == oslots[j]) by {
                if !reaped(oslots, opl, j) {
                    assert(kept_slot_after(mids, midp, backs@, embeds@, oslots, opl, j));
                }
            }
            assert forall|j: int| 0 <= j <= bn implies #[trigger] wait_count(mids, j)
                == wait_count(oslots, j) by {
                lemma_wait_count_agree(mids, oslots, j);
            }
        }

        // how many payloads are still running
        let mut occ: usize = 0;
        let mut i: usize = 0;
        while i < bn
            invariant
                i <= bn,
                occ <= i,
                payloads@ == midp,
                occ as int == busy_count(midp, i as int),
            decreases bn - i,
        {
            if payloads[i].is_busy() {
                occ += 1;
            }
            i += 1;
        }
        proof {
            lemma_live_busy(midp, oslots, opl, bn as int);
        }

        let (starts, promoted_cnt) = self.promote_pass(payloads, occ);
        let ghost remain_g = if occ > self.max_runtime_batch {
            0int
        } else {
            self.max_runtime_batch - occ
        };
        proof {
            assert forall|j: int| 0 <= j < bn implies (promoted(mids, remain_g, j) <==> promoted(
                oslots,
                remain_g,
                j,
            )) by {
                assert(wait_count(mids, j) == wait_count(oslots, j));
            }
        }

        // the model inputs: each busy payload feeds its remaining suffix
        let mut inputs: Vec<Tokens> = Vec::new();
        let mut i: usize = 0;
        while i < bn
            invariant
                i <= bn,
                bn == payloads@.len(),
                inputs@.len() == i,
                forall|j: int|
                    0 <= j < i ==> match payloads@[j] {
                        Payload::Busy(c) => (#[trigger] inputs@[j])@ == c@.suffix,
                        _ => inputs@[j]@.len() == 0,
                    },
            decreases bn - i,
        {
            match &payloads[i] {
                Payload::Busy(c) => {
                    let sfx = c.suffix.duplicate();
                    inputs.push(sfx);
                },
                _ => {
                    inputs.push(Tokens::empty());
                },
            }
            i += 1;
        }

        let occupancy = occ + promoted_cnt;
        proof {
            if occupancy == 0 {
                lemma_busy_count_zero(payloads@, bn as int);
            }
            assert(occ as int == live_busy_count(oslots, opl, bn as int));
            assert(self.max_runtime_batch == old(self).max_runtime_batch);
            assert(remain_g == (if live_busy_count(oslots, opl, bn as int) > old(
                self,
            ).max_runtime_batch as int {
                0int
            } else {
                old(self).max_runtime_batch - live_busy_count(oslots, opl, bn as int)
            }));
            assert(occupancy as int == busy_count(payloads@, bn as int));
            assert(live_busy_count(oslots, opl, bn as int) <= old(self).max_runtime_batch as int
                ==> occupancy <= old(self).max_runtime_batch);
            assert forall|j: int| 0 <= j < bn && reaped(oslots, opl, j) implies (
            #[trigger] reaped_slot_after(
                self.slots@,
                payloads@,
                backs@,
                embeds@,
                oslots,
                opl,
                old(self).cache.next(),
                now,
                j,
            ) && starts@[j] is None) by {
                assert(reaped_slot_after(mids, midp, backs@, embeds@, oslots, opl,
                    old(self).cache.next(), now, j));
                assert(!promoted(mids, remain_g, j));
                assert(skipped_slot_after(self.slots@, payloads@, starts@, mids, midp, j));
            }
            assert forall|j: int| 0 <= j < bn && promoted(oslots, remain_g, j) implies (
            #[trigger] promoted_slot_after(self.slots@, payloads@, starts@, oslots, j)
                && backs@[j] is None && embeds@[j] is None) by {
                assert(promoted(mids, remain_g, j));
                assert(promoted_slot_after(self.slots@, payloads@, starts@, mids, j));
                assert(mids[j] == oslots[j]);
                assert(kept_slot_after(mids, midp, backs@, embeds@, oslots, opl, j));
            }
            assert forall|j: int|
                0 <= j < bn && !reaped(oslots, opl, j) && !promoted(oslots, remain_g, j) implies (
            #[trigger] kept_slot_after(self.slots@, payloads@, backs@, embeds@, oslots, opl, j)
                && starts@[j] is None) by {
                assert(kept_slot_after(mids, midp, backs@, embeds@, oslots, opl, j));
                assert(!promoted(mids, remain_g, j));
                assert(skipped_slot_after(self.slots@, payloads@, starts@, mids, midp, j));
            }
            assert forall|j: int| 0 <= j < bn implies ({
                &&& !((#[trigger] payloads@[j]) is Done)
                &&& (payloads@[j] is Busy ==> self.slots@[j] is Busy)
                &&& busy_pl_ok(payloads@[j])
            }) by {
                if promoted(mids, remain_g, j) {
                    assert(promoted_slot_after(self.slots@, payloads@, starts@, mids, j));
                } else {
                    assert(skipped_slot_after(self.slots@, payloads@, starts@, mids, midp, j));
                    if reaped(oslots, opl, j) {
                        assert(reaped_slot_after(mids, midp, backs@, embeds@, oslots, opl,
                            old(self).cache.next(), now, j));
                        assert(midp[j] is Empty);
                    } else {
                        assert(kept_slot_after(mids, midp, backs@, embeds@, oslots, opl, j));
                        if 0 <= j < opl.len() {
                            assert(busy_pl_ok(opl[j]));
                        }
                    }
                }
            }
        }
        TickPlan { backs, embeds, starts, inputs, occupancy }
    }
}
} // verus!
