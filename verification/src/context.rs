use vstd::prelude::*;
use crate::tokens::Tokens;

verus! {

/// Why a generation finished.
#[derive(Debug, Clone, Copy, PartialEq, Eq, Structural)]
pub enum FinishReason {
    /// A stop pattern matched.
    Stop,
    /// The sampled-token budget was reached.
    Length,
}

/// Token counts reported with a finish event.
#[derive(Debug, Clone, Copy, PartialEq, Eq, Structural)]
pub struct TokenCounter {
    pub prompt_tokens: usize,
    pub completion_tokens: usize,
    pub total_tokens: usize,
}

/// One event of a request's output stream. Text is carried as raw bytes; the
/// transport turns them into strings, and an `Embed` carries the handle of the
/// state snapshot whose embedding the caller reads out.
#[derive(Debug, Clone)]
pub enum Token {
    /// The request was promoted into the running batch.
    Start,
    /// A run of output bytes, cut at a safe boundary.
    Token(Vec<u8>),
    /// The generation finished, with its reason and counters.
    Stop(FinishReason, TokenCounter),
    /// The snapshot of the finished slot, for embedding read-out.
    Embed(u64),
    /// The last event of a stream.
    Done,
}

/// The caller-supplied generation parameters the scheduler decides by. Stop
/// patterns are byte strings; the numeric sampling parameters (the sampler
/// itself, penalty magnitudes, logit biases) stay with the caller, which
/// applies them to the values this crate tells it to.
#[derive(Debug, Clone)]
pub struct GenerateRequest {
    /// Maximum number of sampled tokens.
    pub max_tokens: usize,
    /// Per-request stop patterns, as bytes.
    pub stop: Vec<Vec<u8>>,
    /// Emit the finished slot's embedding snapshot.
    pub embed: bool,
}

/// Process-wide settings: stop patterns merged into every request's.
#[derive(Debug, Clone)]
pub struct Setting {
    pub stop: Vec<Vec<u8>>,
}

/// The per-request running state.
#[derive(Debug, Clone)]
pub struct GenerateContext {
    /// Tokens provided at admission.
    pub prompt_tokens: Vec<u16>,
    /// Tokens already absorbed by the slot's model state.
    pub prefix: Tokens,
    /// Tokens still to feed.
    pub suffix: Tokens,
    /// Tokens carrying an accumulated repetition penalty. The penalty
    /// magnitudes are floating-point values held by the caller under the same
    /// keys; this crate decides which keys exist and when they change.
    pub penalties: Vec<u16>,
    /// All decoded output bytes.
    pub model_text: Vec<u8>,
    /// Decoded bytes not yet emitted, pending a UTF-8 or stop boundary.
    pub output_buffer: Vec<u8>,
    /// Tokens sampled so far.
    pub model_tokens: Vec<u16>,
    /// The caller's generation parameters.
    pub request: GenerateRequest,
    /// Opaque id of the caller's event sink.
    pub sender: u64,
}

/// The mathematical shape of a context.
pub struct GenerateContextView {
    pub prompt_tokens: Seq<u16>,
    pub prefix: Seq<u16>,
    pub suffix: Seq<u16>,
    pub penalties: Seq<u16>,
    pub model_text: Seq<u8>,
    pub output_buffer: Seq<u8>,
    pub model_tokens: Seq<u16>,
    pub max_tokens: usize,
    pub stop: Seq<Seq<u8>>,
    pub embed: bool,
    pub sender: u64,
}

impl View for GenerateContext {
    type V = GenerateContextView;

    open spec fn view(&self) -> GenerateContextView {
        GenerateContextView {
            prompt_tokens: self.prompt_tokens@,
            prefix: self.prefix@,
            suffix: self.suffix@,
            penalties: self.penalties@,
            model_text: self.model_text@,
            output_buffer: self.output_buffer@,
            model_tokens: self.model_tokens@,
            max_tokens: self.request.max_tokens,
            stop: self.request.stop@.map_values(|v: Vec<u8>| v@),
            embed: self.request.embed,
            sender: self.sender,
        }
    }
}

impl GenerateContextView {
    /// All tokens this context stands for: what the slot has absorbed plus
    /// what is still to feed.
    pub open spec fn full(self) -> Seq<u16> {
        self.prefix + self.suffix
    }

    /// The running invariant of a context: the prefix/suffix split carries
    /// exactly the prompt followed by every sampled token (each sampled token
    /// first appears in the suffix, then migrates into the prefix), the
    /// penalty keys are distinct, and the counters fit the machine.
    pub open spec fn wf(self) -> bool {
        &&& self.prefix + self.suffix == self.prompt_tokens + self.model_tokens
        &&& self.model_tokens.len() <= self.max_tokens + 1
        &&& self.prompt_tokens.len() + self.max_tokens + 1 <= usize::MAX
        &&& self.penalties.no_duplicates()
    }

    /// A context fit for admission or for running: well-formed and with its
    /// sampled-token budget not yet exhausted.
    pub open spec fn admissible(self) -> bool {
        self.wf() && self.model_tokens.len() <= self.max_tokens
    }
}

impl GenerateContext {
    /// A fresh context for a prompt: nothing absorbed, nothing sampled, the
    /// whole prompt still to feed.
    pub fn new(prompt_tokens: Vec<u16>, request: GenerateRequest, sender: u64) -> (r:
        GenerateContext)
        requires
            prompt_tokens@.len() + request.max_tokens + 1 <= usize::MAX,
        ensures
            r@.prompt_tokens == prompt_tokens@,
            r@.prefix == Seq::<u16>::empty(),
            r@.suffix == prompt_tokens@,
            r@.penalties == Seq::<u16>::empty(),
            r@.model_text == Seq::<u8>::empty(),
            r@.output_buffer == Seq::<u8>::empty(),
            r@.model_tokens == Seq::<u16>::empty(),
            r@.max_tokens == request.max_tokens,
            r@.stop == request.stop@.map_values(|v: Vec<u8>| v@),
            r@.embed == request.embed,
            r@.sender == sender,
            r@.admissible(),
    {
        let suffix = Tokens(prompt_tokens.clone());
        let r = GenerateContext {
            prompt_tokens,
            prefix: Tokens::empty(),
            suffix,
            penalties: Vec::new(),
            model_text: Vec::new(),
            output_buffer: Vec::new(),
            model_tokens: Vec::new(),
            request,
            sender,
        };
        assert(r@.prefix + r@.suffix =~= r@.prompt_tokens + r@.model_tokens);
        r
    }
}

} // verus!
