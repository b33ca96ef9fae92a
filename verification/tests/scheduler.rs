use slot_scheduler::cache::PrefixStateCache;
use slot_scheduler::context::{FinishReason, GenerateContext, GenerateRequest, Setting, Token};
use slot_scheduler::penalty::PenaltyFree;
use slot_scheduler::runtime::{
    advance_context, LoadSource, Runtime, SlotOutcome, SlotResult, StepResult,
};
use slot_scheduler::slots::Payload;
use slot_scheduler::stop::{find_cut, scan_stop};
use slot_scheduler::tokens::{AsTokenSlice, Tokens};

fn request(max_tokens: usize, stop: Vec<Vec<u8>>) -> GenerateRequest {
    GenerateRequest { max_tokens, stop, embed: false }
}

fn fresh_ctx(prompt: Vec<u16>, max_tokens: usize, stop: Vec<Vec<u8>>, sender: u64) -> GenerateContext {
    GenerateContext::new(prompt, request(max_tokens, stop), sender)
}

fn no_setting() -> Setting {
    Setting { stop: vec![] }
}

fn step(token: Option<u16>, word: &[u8]) -> StepResult {
    StepResult { remaining: 0, token, word: word.to_vec(), disconnected: false }
}

fn empty_step() -> StepResult {
    StepResult { remaining: 0, token: None, word: vec![], disconnected: false }
}

fn words_table() -> Vec<Vec<u8>> {
    // token 0 decodes to "a", 1 to ",", 2 to "x.y", 3 to "/", 4 to "\n"
    vec![b"a".to_vec(), b",".to_vec(), b"x.y".to_vec(), b"/".to_vec(), b"\n".to_vec()]
}

#[test]
fn token_slice_is_little_endian() {
    let t = Tokens(vec![0x0102, 0xA0B1]);
    let s = t.as_token_slice();
    assert_eq!(s.0, vec![0x02, 0x01, 0xB1, 0xA0]);
}

#[test]
fn starts_with_checks_prefixes() {
    let t = Tokens(vec![7, 8, 9]);
    assert!(t.starts_with(&Tokens(vec![])));
    assert!(t.starts_with(&Tokens(vec![7, 8])));
    assert!(!t.starts_with(&Tokens(vec![8])));
    assert!(!t.starts_with(&Tokens(vec![7, 8, 9, 10])));
}

#[test]
fn scan_finds_simple_match() {
    let (safe, matched) = scan_stop(&b"HELLO STOP WORLD".to_vec(), &b"STOP".to_vec());
    assert_eq!((safe, matched), (6, true));
}

#[test]
fn scan_reports_partial_match_as_unsafe() {
    let (safe, matched) = scan_stop(&b"HELLO ST".to_vec(), &b"STOP".to_vec());
    assert_eq!((safe, matched), (6, false));
}

#[test]
fn scan_simplistic_reset_misses_overlap() {
    // the scanner restarts after a mismatch, so "aab" in "aaab" is missed
    let (safe, matched) = scan_stop(&b"aaab".to_vec(), &b"aab".to_vec());
    assert_eq!(matched, false);
    assert_eq!(safe, 4);
}

#[test]
fn find_cut_prefers_match_then_earlier_cut() {
    let buf = b"xxAByyCD".to_vec();
    let r = find_cut(&buf, &vec![b"CD".to_vec()], &vec![b"AB".to_vec()]);
    assert_eq!(r, (2, true));
    let none = find_cut(&buf, &vec![], &vec![]);
    assert_eq!(none, (buf.len(), false));
}

#[test]
fn penalty_free_tokens_from_words() {
    let free = PenaltyFree::from_words(&words_table());
    assert!(!free.is_free(0));
    assert!(free.is_free(1));
    assert!(free.is_free(2));
    assert!(free.is_free(3));
    assert!(free.is_free(4));
    assert!(!free.is_free(5));
    // recomputing from the same table yields the same set
    let again = PenaltyFree::from_words(&words_table());
    for t in 0..8u16 {
        assert_eq!(free.is_free(t), again.is_free(t));
    }
}

#[test]
fn penalty_targets_skip_free_tokens() {
    let free = PenaltyFree::from_words(&words_table());
    let targets = free.targets(&vec![0, 1, 5, 3]);
    assert_eq!(targets, vec![0, 5]);
}

#[test]
fn cache_insert_remove_round_trip() {
    let mut cache = PrefixStateCache::new();
    let k = Tokens(vec![7, 8, 9]);
    cache.insert(&k, 42);
    assert!(cache.contains_key(&k));
    assert_eq!(cache.remove(&k), Some(42));
    assert!(!cache.contains_key(&k));
    assert_eq!(cache.remove(&k), None);
}

#[test]
fn checkout_hits_longest_prefix_and_preserves_cache() {
    let mut cache = PrefixStateCache::new();
    cache.insert(&Tokens(vec![7]), 1);
    cache.insert(&Tokens(vec![7, 8, 9]), 3);
    let (p, h) = cache.checkout(&Tokens(vec![7, 8, 9, 42]));
    assert_eq!(p.0, vec![7, 8, 9]);
    assert_eq!(h, Some(3));
    // the entry is still there afterwards
    assert!(cache.contains_key(&Tokens(vec![7, 8, 9])));
    assert!(cache.contains_key(&Tokens(vec![7])));
    let (p2, h2) = cache.checkout(&Tokens(vec![1, 2]));
    assert_eq!(p2.0, vec![]);
    assert_eq!(h2, None);
}

#[test]
fn checkout_is_token_aligned() {
    // keys share a low byte with the query's second token, but no token
    // prefix beyond the first token matches
    let mut cache = PrefixStateCache::new();
    cache.insert(&Tokens(vec![5, 0x0102]), 9);
    let (p, h) = cache.checkout(&Tokens(vec![5, 0x0103, 7]));
    assert_eq!(p.0, vec![]);
    assert_eq!(h, None);
}

#[test]
fn queue_empty_input_is_error() {
    let mut rt = Runtime::new(2, 2, 0, &words_table(), 0);
    let ctx = fresh_ctx(vec![], 4, vec![], 1);
    let (r, ops) = rt.queue(ctx);
    assert!(matches!(r, SlotResult::Error));
    assert_eq!(ops.back, None);
    assert_eq!(ops.load, None);
}

#[test]
fn queue_without_idle_slot_is_failure() {
    let mut rt = Runtime::new(1, 1, 0, &words_table(), 0);
    let mut payloads: Vec<Payload> = vec![];
    let (r, _) = rt.queue(fresh_ctx(vec![1, 2], 4, vec![], 1));
    assert!(matches!(r, SlotResult::Fault(0)));
    let _plan = rt.process(&mut payloads, 1);
    // the single slot is now busy: a second request is handed back
    let (r2, ops2) = rt.queue(fresh_ctx(vec![3, 4], 4, vec![], 2));
    match r2 {
        SlotResult::Failure(c) => {
            assert_eq!(c.prefix.0, vec![]);
            assert_eq!(c.suffix.0, vec![3, 4]);
            assert_eq!(c.sender, 2);
        }
        other => panic!("expected failure, got {:?}", other),
    }
    assert_eq!(ops2.back, None);
    assert_eq!(ops2.load, None);
}

#[test]
fn queue_fresh_slot_is_fault_with_fresh_state() {
    let mut rt = Runtime::new(2, 2, 0, &words_table(), 0);
    let (r, ops) = rt.queue(fresh_ctx(vec![7, 8, 9], 4, vec![], 1));
    assert!(matches!(r, SlotResult::Fault(_)));
    assert_eq!(ops.back, None);
    assert_eq!(ops.load, Some(LoadSource::Fresh));
}

#[test]
fn process_with_no_work_makes_no_model_call() {
    let mut rt = Runtime::new(2, 2, 0, &words_table(), 0);
    let mut payloads: Vec<Payload> = vec![];
    let plan = rt.process(&mut payloads, 0);
    assert_eq!(plan.occupancy, 0);
    assert!(plan.inputs.iter().all(|t| t.0.is_empty()));
    assert!(plan.starts.iter().all(|s| s.is_none()));
    assert!(plan.backs.iter().all(|s| s.is_none()));
}

#[test]
fn concurrency_cap_promotes_in_slot_order() {
    let mut rt = Runtime::new(4, 2, 0, &words_table(), 0);
    // equally preferred empty slots: the scan keeps the last, so requests
    // land in slots 3, 2, 1, 0
    for i in 0..4u64 {
        let (r, _) = rt.queue(fresh_ctx(vec![10 + i as u16], 4, vec![], i));
        assert!(matches!(r, SlotResult::Fault(_)));
    }
    let mut payloads: Vec<Payload> = vec![];
    let plan = rt.process(&mut payloads, 1);
    assert_eq!(plan.occupancy, 2);
    assert_eq!(plan.starts[0], Some(3));
    assert_eq!(plan.starts[1], Some(2));
    assert_eq!(plan.starts[2], None);
    assert_eq!(plan.starts[3], None);
    assert!(payloads[0].is_busy() && payloads[1].is_busy());
    assert!(payloads[2].is_empty() && payloads[3].is_empty());
    // as busy slots finish, the waiting ones are promoted in slot order
    let outcomes = rt.commit(
        &mut payloads,
        &vec![
            step(Some(1), b"a"),
            step(Some(1), b"a"),
            empty_step(),
            empty_step(),
        ],
        &no_setting(),
    );
    assert!(matches!(outcomes[0], SlotOutcome::Advanced { .. }));
    // finish both running requests by length: max_tokens 4 not reached, so
    // they are still busy; drop their sinks instead next tick
    let _ = rt.commit(
        &mut payloads,
        &vec![
            StepResult { remaining: 0, token: Some(2), word: b"b".to_vec(), disconnected: true },
            StepResult { remaining: 0, token: Some(2), word: b"b".to_vec(), disconnected: true },
            empty_step(),
            empty_step(),
        ],
        &no_setting(),
    );
    assert!(payloads[0].is_done() && payloads[1].is_done());
    let plan2 = rt.process(&mut payloads, 2);
    assert_eq!(plan2.occupancy, 2);
    assert_eq!(plan2.starts[2], Some(1));
    assert_eq!(plan2.starts[3], Some(0));
}

#[test]
fn stop_string_truncates_and_finishes() {
    // a generation producing "HELLO STOP WORLD" emits "HELLO ", Stop, Done
    let mut ctx = fresh_ctx(vec![5], 100, vec![b"STOP".to_vec()], 7);
    ctx.prefix = Tokens(vec![]);
    ctx.suffix = Tokens(vec![5]);
    let (events, done, _) = advance_context(&mut ctx, &step(Some(6), b"HELLO STOP WORLD"), &vec![]);
    assert!(done);
    assert_eq!(events.len(), 3);
    match &events[0] {
        Token::Token(bytes) => assert_eq!(bytes, b"HELLO "),
        other => panic!("expected text, got {:?}", other),
    }
    match &events[1] {
        Token::Stop(reason, counter) => {
            assert_eq!(*reason, FinishReason::Stop);
            assert_eq!(counter.prompt_tokens, 1);
            assert_eq!(counter.completion_tokens, 1);
            assert_eq!(counter.total_tokens, 2);
        }
        other => panic!("expected stop, got {:?}", other),
    }
    assert!(matches!(events[2], Token::Done));
}

#[test]
fn stop_string_straddling_tokens_still_triggers() {
    let mut ctx = fresh_ctx(vec![5], 100, vec![b"STOP".to_vec()], 7);
    let (events, done, _) = advance_context(&mut ctx, &step(Some(6), b"HELLO ST"), &vec![]);
    assert!(!done);
    assert_eq!(events.len(), 1);
    match &events[0] {
        Token::Token(bytes) => assert_eq!(bytes, b"HELLO "),
        other => panic!("expected text, got {:?}", other),
    }
    // the held "ST" plus the next token's bytes complete the stop string
    let (events2, done2, _) = advance_context(&mut ctx, &step(Some(7), b"OP WORLD"), &vec![]);
    assert!(done2);
    match &events2[0] {
        Token::Token(bytes) => assert_eq!(bytes, b""),
        other => panic!("expected text, got {:?}", other),
    }
    assert!(matches!(events2[1], Token::Stop(FinishReason::Stop, _)));
    assert!(matches!(events2[2], Token::Done));
}

#[test]
fn length_stop_counts_three_tokens() {
    let mut ctx = fresh_ctx(vec![9, 9], 3, vec![], 7);
    let (e1, d1, _) = advance_context(&mut ctx, &step(Some(1), b"a"), &vec![]);
    assert!(!d1);
    assert_eq!(e1.len(), 1);
    let (e2, d2, _) = advance_context(&mut ctx, &step(Some(2), b"b"), &vec![]);
    assert!(!d2);
    assert_eq!(e2.len(), 1);
    let (e3, d3, _) = advance_context(&mut ctx, &step(Some(3), b"c"), &vec![]);
    assert!(d3);
    assert_eq!(e3.len(), 2);
    match &e3[0] {
        Token::Stop(reason, counter) => {
            assert_eq!(*reason, FinishReason::Length);
            assert_eq!(counter.completion_tokens, 3);
            assert_eq!(counter.prompt_tokens, 2);
            assert_eq!(counter.total_tokens, 5);
        }
        other => panic!("expected stop, got {:?}", other),
    }
}

#[test]
fn multibyte_utf8_is_emitted_when_completed() {
    let mut ctx = fresh_ctx(vec![9], 100, vec![], 7);
    // the first token's bytes end inside a two-byte code point: held back
    let (e1, d1, _) = advance_context(&mut ctx, &step(Some(1), b"a\xc3"), &vec![]);
    assert!(!d1);
    assert_eq!(e1.len(), 0);
    // the next token completes it: held prefix and new bytes go together
    let (e2, d2, _) = advance_context(&mut ctx, &step(Some(2), b"\xa9b"), &vec![]);
    assert!(!d2);
    assert_eq!(e2.len(), 1);
    match &e2[0] {
        Token::Token(bytes) => {
            assert_eq!(String::from_utf8(bytes.clone()).unwrap(), "a\u{e9}b");
        }
        other => panic!("expected text, got {:?}", other),
    }
    assert_eq!(ctx.output_buffer, Vec::<u8>::new());
}

#[test]
fn disconnect_finishes_without_events() {
    let mut rt = Runtime::new(1, 1, 0, &words_table(), 0);
    let (r, _) = rt.queue(fresh_ctx(vec![1, 2], 10, vec![], 3));
    assert!(matches!(r, SlotResult::Fault(0)));
    let mut payloads: Vec<Payload> = vec![];
    let plan = rt.process(&mut payloads, 1);
    assert_eq!(plan.occupancy, 1);
    let outcomes = rt.commit(
        &mut payloads,
        &vec![StepResult { remaining: 0, token: Some(5), word: b"x".to_vec(), disconnected: true }],
        &no_setting(),
    );
    match &outcomes[0] {
        SlotOutcome::Advanced { events, .. } => assert_eq!(events.len(), 0),
        other => panic!("expected advance, got {:?}", other),
    }
    assert!(payloads[0].is_done());
    // the next tick returns the slot to idle and emits nothing further
    let plan2 = rt.process(&mut payloads, 2);
    assert_eq!(plan2.occupancy, 0);
    assert!(payloads[0].is_empty());
    assert!(plan2.backs[0].is_some());
}

#[test]
fn penalty_bookkeeping_tracks_presence_and_frequency() {
    let mut rt = Runtime::new(1, 1, 0, &words_table(), 0);
    let (_, _) = rt.queue(fresh_ctx(vec![1, 2], 10, vec![], 3));
    let mut payloads: Vec<Payload> = vec![];
    let _ = rt.process(&mut payloads, 1);
    let outcomes = rt.commit(&mut payloads, &vec![step(Some(5), b"x")], &no_setting());
    match &outcomes[0] {
        SlotOutcome::Advanced { bump, .. } => {
            assert_eq!(*bump, Some(slot_scheduler::runtime::PenaltyBump::Presence(5)));
        }
        other => panic!("expected advance, got {:?}", other),
    }
    let outcomes2 = rt.commit(&mut payloads, &vec![step(Some(5), b"x")], &no_setting());
    match &outcomes2[0] {
        SlotOutcome::Advanced { bump, .. } => {
            assert_eq!(*bump, Some(slot_scheduler::runtime::PenaltyBump::Frequency(5)));
        }
        other => panic!("expected advance, got {:?}", other),
    }
}

#[test]
fn prefix_reuse_across_requests() {
    let mut rt = Runtime::new(2, 2, 0, &words_table(), 0);
    // request A: prompt [7, 8, 9], two sampled tokens, then a length stop
    let (r, _) = rt.queue(fresh_ctx(vec![7, 8, 9], 2, vec![], 1));
    assert!(matches!(r, SlotResult::Fault(1)));
    let mut payloads: Vec<Payload> = vec![];
    let plan = rt.process(&mut payloads, 1);
    assert_eq!(plan.inputs[1].0, vec![7, 8, 9]);
    let _ = rt.commit(&mut payloads, &vec![empty_step(), step(Some(42), b"a")], &no_setting());
    let _ = rt.commit(&mut payloads, &vec![empty_step(), step(Some(43), b"b")], &no_setting());
    assert!(payloads[1].is_done());
    // the reap snapshots the state of [7, 8, 9, 42] and caches it
    let plan2 = rt.process(&mut payloads, 2);
    let handle = plan2.backs[1].expect("snapshot owed");
    assert!(rt.cache.contains_key(&Tokens(vec![7, 8, 9, 42])));
    // request B extends that prefix: the idle slot continues it directly
    let (r2, ops2) = rt.queue(fresh_ctx(vec![7, 8, 9, 42, 50], 2, vec![], 2));
    match r2 {
        SlotResult::Success(b) => {
            assert_eq!(b, 1);
            assert_eq!(ops2.load, None);
        }
        SlotResult::Fault(_) => {
            assert_eq!(ops2.load, Some(LoadSource::Cached(handle)));
        }
        other => panic!("expected admission, got {:?}", other),
    }
    // a third request that only shares [7, 8, 9, 42] as a cached prefix
    // checks out the snapshot once the slot is gone
    let mut rt2 = Runtime::new(1, 1, 0, &words_table(), 0);
    rt2.cache.insert(&Tokens(vec![7, 8, 9, 42]), 5);
    let (p, h) = rt2.cache.checkout(&Tokens(vec![7, 8, 9, 42, 50]));
    assert_eq!(p.0, vec![7, 8, 9, 42]);
    assert_eq!(h, Some(5));
}

#[test]
fn eviction_backs_older_slot_into_cache() {
    let mut rt = Runtime::new(2, 2, 0, &words_table(), 0);
    let mut payloads: Vec<Payload> = vec![];
    // fill both slots with unrelated prefixes; A lands in slot 1, B in 0
    let (_, _) = rt.queue(fresh_ctx(vec![1, 2], 1, vec![], 1));
    let (_, _) = rt.queue(fresh_ctx(vec![3, 4], 2, vec![], 2));
    let _ = rt.process(&mut payloads, 1);
    // A (max one token) finishes; B needs a second sample
    let _ = rt.commit(
        &mut payloads,
        &vec![step(Some(22), b"b"), step(Some(21), b"a")],
        &no_setting(),
    );
    assert!(payloads[1].is_done() && payloads[0].is_busy());
    // slot 1 goes idle at tick 2; slot 0 finishes and goes idle at tick 3
    let _ = rt.process(&mut payloads, 2);
    let _ = rt.commit(&mut payloads, &vec![step(Some(23), b"c"), empty_step()], &no_setting());
    assert!(payloads[0].is_done());
    let _ = rt.process(&mut payloads, 3);
    // admit C with an unrelated prompt: both slots idle with irrelevant
    // content, so the longer-idle slot 1 is evicted into the cache
    let (r, ops) = rt.queue(fresh_ctx(vec![9, 9, 9], 4, vec![], 3));
    assert!(matches!(r, SlotResult::Fault(1)));
    assert!(ops.back.is_some());
    assert!(rt.cache.contains_key(&Tokens(vec![1, 2])));
}
