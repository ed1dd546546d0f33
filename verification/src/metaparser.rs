//! Directive definitions, invocation parsing, and dispatch.
//!
//! A block is parsed into an invocation `(name, inline argument, body)`;
//! the dispatcher resolves the name in the symbol table and runs the
//! matching handler. The `note` handler captures the body as data or
//! nested bindings; the `exec` handler turns the inline argument into a
//! command request that the embedding program runs, whose outcome is
//! folded back into an interpretation result by `complete_exec`.

use vstd::prelude::*;

use crate::chars::{find_first_in, lemma_find_first, CharClass};
use crate::parser::{
    body_wf, dedent_body, spec_dedent, spec_harg, spec_head, spec_name, spec_tail, spec_tokens,
    split_tokens,
};
use crate::scanner::{lemma_scan_block_len, scan_blocks, spec_scan};
use crate::symtab::{SymbolTable, SymbolTableBinding};

verus! {

/// The built-in handlers a directive can dispatch to.
#[derive(Clone, Copy, PartialEq, Eq, Structural)]
pub enum HandlerKind {
    /// Captures the body as data or nested bindings in the symbol table.
    Note,
    /// Runs the inline argument as a command, the body as its input.
    Exec,
}

/// A meta-directive definition: a name and the handler it dispatches to.
pub struct Directive {
    /// The name under which the directive is bound.
    pub name: String,
    /// The handler invoked when the directive is dispatched.
    pub handler: HandlerKind,
}

/// A structured interpretation failure.
#[derive(Debug)]
pub enum InterpretError {
    /// The directive name is not bound in the symbol table.
    UndefinedDirective(String),
    /// The name is bound, but to data or a module, not to a directive.
    NotInvocable(String),
    /// An exec directive whose inline argument holds no command word.
    EmptyCommand,
    /// A continuation line without the four-space margin.
    MalformedBlock,
    /// The command could not be run or exited with failure: its exit
    /// code, if it ran at all, and what it wrote to its error stream.
    CommandFailed(Option<i32>, String),
}

/// What interpreting one directive yields: spliced output text, or the
/// failure that stops the run.
pub type InterpretationResult = Result<String, InterpretError>;

/// A meta-directive invocation: one parsed occurrence of a directive.
pub struct MetaDirectiveInvocation {
    /// The name of the meta-directive being invoked.
    pub name: String,
    /// The inline argument: the head line after the name and one
    /// separator character.
    pub harg: String,
    /// The body: the indent-adjusted lines under the head line.
    pub varg: String,
}

/// A request to run an external command, handed to the embedding
/// program; `input` is piped to the command's input stream.
pub struct CommandRequest {
    /// The program to spawn.
    pub program: String,
    /// Its arguments, in order.
    pub args: Vec<String>,
    /// Text for its input stream.
    pub input: String,
}

/// What became of a spawned command.
pub struct ExecOutcome {
    /// Whether the command ran and exited successfully.
    pub success: bool,
    /// Its exit code, when it ran to an exit at all.
    pub exit_code: Option<i32>,
    /// What it wrote to its output stream.
    pub stdout: String,
    /// What it wrote to its error stream, or why it could not be run.
    pub stderr: String,
}

/// The dispatcher's answer for one block: either a finished result, or a
/// command the embedding program must run before the result is known.
pub enum DispatchStep {
    /// The block's result is settled.
    Done(InterpretationResult),
    /// Run this command; fold its outcome in with `complete_exec`.
    Command(CommandRequest),
}

impl InterpretError {
    /// What `message` returns for this failure.
    pub open spec fn spec_message(&self) -> Seq<char> {
        match self {
            InterpretError::UndefinedDirective(name) => "Undefined directive "@ + name@,
            InterpretError::NotInvocable(name) => "Not an invocable directive: "@ + name@,
            InterpretError::EmptyCommand => "Empty shell command."@,
            InterpretError::MalformedBlock => "Malformed block: a body line must start with four spaces."@,
            InterpretError::CommandFailed(_, stderr) => "Command failed: "@ + stderr@,
        }
    }

    /// A human-readable description of the failure.
    pub fn message(&self) -> (r: String)
        ensures
            r@ == self.spec_message(),
    {
        match self {
            InterpretError::UndefinedDirective(name) => String::from_str(
                "Undefined directive ",
            ).concat(name.as_str()),
            InterpretError::NotInvocable(name) => String::from_str(
                "Not an invocable directive: ",
            ).concat(name.as_str()),
            InterpretError::EmptyCommand => String::from_str("Empty shell command."),
            InterpretError::MalformedBlock => String::from_str(
                "Malformed block: a body line must start with four spaces.",
            ),
            InterpretError::CommandFailed(_, stderr) => String::from_str(
                "Command failed: ",
            ).concat(stderr.as_str()),
        }
    }
}

/// Parses one block into an invocation: the head line is split into name
/// and inline argument at the first separator character, and the body is
/// the remaining lines with their four-space margins removed. Fails when
/// a continuation line lacks the margin.
pub fn read_directive(directive: &str) -> (r: Result<MetaDirectiveInvocation, InterpretError>)
    ensures
        r matches Ok(inv) ==> body_wf(spec_tail(directive@)) && inv.name@ == spec_name(directive@)
            && inv.harg@ == spec_harg(directive@) && inv.varg@ == spec_dedent(
            spec_tail(directive@),
        ),
        r matches Err(e) ==> !body_wf(spec_tail(directive@)) && e
            == InterpretError::MalformedBlock,
{
    let n = directive.unicode_len();
    let pos_eoh = find_first_in(directive, 0, CharClass::Newline);
    proof {
        lemma_find_first(directive@, 0, CharClass::Newline);
    }
    let head = directive.substring_char(0, pos_eoh);
    let head_n = head.unicode_len();
    let pos_eod = find_first_in(head, 0, CharClass::Sep);
    let name = String::from_str(head.substring_char(0, pos_eod));
    let harg = if pos_eod < head_n && pos_eod + 1 < head_n {
        String::from_str(head.substring_char(pos_eod + 1, head_n))
    } else {
        String::new()
    };
    let tail = if pos_eoh < n {
        directive.substring_char(pos_eoh + 1, n)
    } else {
        directive.substring_char(n, n)
    };
    proof {
        assert(tail@ =~= spec_tail(directive@));
        assert(name@ =~= spec_name(directive@));
        assert(harg@ =~= spec_harg(directive@));
    }
    match dedent_body(tail) {
        Some(varg) => Ok(MetaDirectiveInvocation { name, harg, varg }),
        None => Err(InterpretError::MalformedBlock),
    }
}

/// What dispatching an `exec` directive yields: `EmptyCommand` when the
/// inline argument holds no token, else a request to run the first token
/// as the program, the rest as its arguments, and the body as its input.
pub open spec fn exec_dispatch_post(harg: Seq<char>, varg: Seq<char>, step: DispatchStep) -> bool {
    let toks = spec_tokens(harg);
    if toks.len() == 0 {
        step matches DispatchStep::Done(r) && r matches Err(e) && e
            == InterpretError::EmptyCommand
    } else {
        step matches DispatchStep::Command(req) && req.program@ == toks[0] && req.args.deep_view()
            == toks.subrange(1, toks.len() as int) && req.input@ == varg
    }
}

/// The `exec` handler: turns the inline argument into a command request.
/// It never touches the symbol table; the embedding program runs the
/// command and folds the outcome in with `complete_exec`.
pub fn interpret_exec(symtab: &mut SymbolTable, harg: &str, varg: &str) -> (step: DispatchStep)
    requires
        old(symtab).wf(),
    ensures
        final(symtab).wf(),
        final(symtab)@ == old(symtab)@,
        exec_dispatch_post(harg@, varg@, step),
{
    let mut toks = split_tokens(harg);
    if toks.len() == 0 {
        return DispatchStep::Done(Err(InterpretError::EmptyCommand));
    }
    let ghost all = spec_tokens(harg@);
    let ghost toks0 = toks@;
    let program = toks.remove(0);
    proof {
        toks0.remove_ensures(0);
        assert(toks.deep_view() =~= all.subrange(1, all.len() as int));
    }
    DispatchStep::Command(
        CommandRequest { program, args: toks, input: String::from_str(varg) },
    )
}

/// Folds the outcome of a spawned command into the directive's result:
/// success yields the captured output text, failure yields
/// `CommandFailed` with the exit code and error-stream text.
pub fn complete_exec(outcome: ExecOutcome) -> (r: InterpretationResult)
    ensures
        outcome.success ==> (r matches Ok(s) && s == outcome.stdout),
        !outcome.success ==> (r matches Err(e) && e matches InterpretError::CommandFailed(c, m)
            && c == outcome.exit_code && m == outcome.stderr),
{
    if outcome.success {
        Ok(outcome.stdout)
    } else {
        Err(InterpretError::CommandFailed(outcome.exit_code, outcome.stderr))
    }
}

/// The name a `note` directive binds: its inline argument, without one
/// trailing colon if present.
pub open spec fn note_key(harg: Seq<char>) -> Seq<char> {
    if harg.len() > 0 && harg[harg.len() - 1] == ':' {
        harg.drop_last()
    } else {
        harg
    }
}

/// Whether every block of `blocks` has a non-empty head line ending in a
/// colon, so that each introduces a nested name.
pub open spec fn blocks_all_keyed(blocks: Seq<Seq<char>>) -> bool {
    forall|i: int|
        0 <= i < blocks.len() ==> {
            let h = spec_head(#[trigger] blocks[i]);
            h.len() > 0 && h[h.len() - 1] == ':'
        }
}

/// The nested name a keyed block introduces: its head line without the
/// trailing colon.
pub open spec fn block_key(b: Seq<char>) -> Seq<char> {
    spec_head(b).drop_last()
}

/// A body text read as newline-terminated lines: one terminating line
/// feed is dropped before the text is cut into blocks, so that the feed
/// restored after a body's last line does not open an empty extra block.
pub open spec fn note_lines(text: Seq<char>) -> Seq<char> {
    if text.len() > 0 && text[text.len() - 1] == '\n' {
        text.drop_last()
    } else {
        text
    }
}

/// No later block of `blocks[j..end]` reuses the key of `blocks[j]`.
pub open spec fn last_key_before(blocks: Seq<Seq<char>>, j: int, end: int) -> bool {
    forall|l: int| j < l < end ==> block_key(#[trigger] blocks[l]) != block_key(blocks[j])
}

/// For every keyed block of `text` whose raw tail is well formed, the
/// dedented body is strictly shorter than `text`: the nested capture
/// grammar recurses on shrinking texts.
proof fn lemma_note_block_decreases(text: Seq<char>)
    ensures
        forall|i: int|
            0 <= i < spec_scan(note_lines(text)).len() && blocks_all_keyed(
                spec_scan(note_lines(text)),
            ) && body_wf(spec_tail(#[trigger] spec_scan(note_lines(text))[i]))
                ==> spec_dedent(spec_tail(spec_scan(note_lines(text))[i])).len() < text.len(),
{
    lemma_scan_block_len(note_lines(text));
    assert forall|i: int|
        0 <= i < spec_scan(note_lines(text)).len() && blocks_all_keyed(
            spec_scan(note_lines(text)),
        ) && body_wf(spec_tail(#[trigger] spec_scan(note_lines(text))[i]))
        implies spec_dedent(spec_tail(spec_scan(note_lines(text))[i])).len() < text.len() by {
        let b = spec_scan(note_lines(text))[i];
        let t = spec_tail(b);
        lemma_find_first(b, 0, CharClass::Newline);
        assert(spec_head(b).len() > 0);
        if t.len() > 0 {
            crate::parser::lemma_dedent_len(t);
        }
    }
}

/// Whether the nested capture grammar rejects `text`: all its blocks are
/// keyed, but some block's tail lacks the four-space margin, or some
/// nested body is itself rejected.
pub open spec fn note_malformed(text: Seq<char>) -> bool
    decreases text.len(),
    via note_malformed_decreases
{
    let blocks = spec_scan(note_lines(text));
    blocks_all_keyed(blocks) && (exists|i: int|
        0 <= i < blocks.len() && (if !body_wf(spec_tail(#[trigger] blocks[i])) {
            true
        } else {
            note_malformed(spec_dedent(spec_tail(blocks[i])))
        }))
}

#[via_fn]
proof fn note_malformed_decreases(text: Seq<char>) {
    lemma_note_block_decreases(text);
}

/// Whether `b` is what the nested capture grammar makes of `text`: the
/// whole text as a data payload when not all blocks are keyed, else a
/// well-formed module binding each block's key — the last block wins a
/// repeated key — to the capture of its dedented body.
pub open spec fn note_value_ok(text: Seq<char>, b: SymbolTableBinding) -> bool
    decreases text.len(),
    via note_value_ok_decreases
{
    let blocks = spec_scan(note_lines(text));
    if !blocks_all_keyed(blocks) {
        b matches SymbolTableBinding::Data(s) && s@ == text
    } else {
        b matches SymbolTableBinding::Module(m) && m.wf() && (forall|n: Seq<char>|
            #[trigger] m@.contains_key(n) <==> exists|i: int|
                0 <= i < blocks.len() && block_key(#[trigger] blocks[i]) == n) && (forall|i: int|
            0 <= i < blocks.len() && last_key_before(blocks, i, blocks.len() as int) ==> (
            if !body_wf(spec_tail(#[trigger] blocks[i])) {
                false
            } else {
                note_value_ok(spec_dedent(spec_tail(blocks[i])), m@[block_key(blocks[i])])
            }))
    }
}

#[via_fn]
proof fn note_value_ok_decreases(text: Seq<char>, b: SymbolTableBinding) {
    lemma_note_block_decreases(text);
}

/// Parses `text` under the nested capture grammar: a data payload, or a
/// module of keyed sub-captures; `MalformedBlock` exactly when the
/// grammar rejects `text`.
fn parse_note_value(text: &str) -> (r: Result<SymbolTableBinding, InterpretError>)
    ensures
        r matches Ok(b) ==> !note_malformed(text@) && note_value_ok(text@, b),
        r matches Err(e) ==> note_malformed(text@) && e == InterpretError::MalformedBlock,
    decreases text@.len(),
{
    let tn = text.unicode_len();
    let trimmed = if tn > 0 && text.get_char(tn - 1) == '\n' {
        text.substring_char(0, tn - 1)
    } else {
        text
    };
    proof {
        assert(trimmed@ =~= note_lines(text@));
    }
    let blocks = scan_blocks(trimmed);
    let ghost bseq = spec_scan(note_lines(text@));
    let mut k: usize = 0;
    while k < blocks.len()
        invariant
            k <= blocks@.len(),
            blocks.deep_view() == bseq,
            bseq == spec_scan(note_lines(text@)),
            forall|j: int|
                0 <= j < k ==> {
                    let h = spec_head(#[trigger] bseq[j]);
                    h.len() > 0 && h[h.len() - 1] == ':'
                },
        decreases blocks@.len() - k,
    {
        let bs = blocks[k].as_str();
        let he = find_first_in(bs, 0, CharClass::Newline);
        proof {
            lemma_find_first(bs@, 0, CharClass::Newline);
            assert(spec_head(bseq[k as int]) =~= bs@.subrange(0, he as int));
        }
        if he == 0 || bs.get_char(he - 1) != ':' {
            proof {
                assert(!blocks_all_keyed(bseq));
                assert(!note_malformed(text@));
            }
            let payload = String::from_str(text);
            let result = SymbolTableBinding::Data(payload);
            proof {
                assert(note_value_ok(text@, result));
            }
            return Ok(result);
        }
        k = k + 1;
    }
    proof {
        assert(blocks_all_keyed(bseq));
    }
    let mut table = SymbolTable::new();
    let mut i: usize = 0;
    while i < blocks.len()
        invariant
            i <= blocks@.len(),
            blocks.deep_view() == bseq,
            bseq == spec_scan(note_lines(text@)),
            blocks_all_keyed(bseq),
            table.wf(),
            forall|n: Seq<char>|
                #[trigger] table@.contains_key(n) <==> exists|j: int|
                    0 <= j < i && block_key(#[trigger] bseq[j]) == n,
            forall|j: int|
                0 <= j < i ==> body_wf(spec_tail(#[trigger] bseq[j])) && !note_malformed(
                    spec_dedent(spec_tail(bseq[j])),
                ),
            forall|j: int|
                0 <= j < i && last_key_before(bseq, j, i as int) ==> note_value_ok(
                    spec_dedent(spec_tail(#[trigger] bseq[j])),
                    table@[block_key(bseq[j])],
                ),
        decreases blocks@.len() - i,
    {
        let bs = blocks[i].as_str();
        let bn = bs.unicode_len();
        let he = find_first_in(bs, 0, CharClass::Newline);
        proof {
            lemma_find_first(bs@, 0, CharClass::Newline);
            assert(spec_head(bseq[i as int]) =~= bs@.subrange(0, he as int));
            assert(spec_head(bseq[i as int]).len() > 0);
        }
        let key = bs.substring_char(0, he - 1);
        let tail = if he < bn {
            bs.substring_char(he + 1, bn)
        } else {
            bs.substring_char(bn, bn)
        };
        proof {
            assert(key@ =~= block_key(bseq[i as int]));
            assert(tail@ =~= spec_tail(bseq[i as int]));
        }
        let dedented = match dedent_body(tail) {
            Some(d) => d,
            None => {
                proof {
                    assert(note_malformed(text@));
                }
                return Err(InterpretError::MalformedBlock);
            },
        };
        proof {
            lemma_note_block_decreases(text@);
        }
        let sub = match parse_note_value(dedented.as_str()) {
            Ok(s) => s,
            Err(e) => {
                proof {
                    assert(note_malformed(text@));
                }
                return Err(e);
            },
        };
        let ghost pre = table@;
        table.bind(key, sub);
        proof {
            let ki = block_key(bseq[i as int]);
            assert forall|n: Seq<char>| #[trigger] table@.contains_key(n) implies exists|j: int|
                0 <= j < i + 1 && block_key(#[trigger] bseq[j]) == n by {
                if n == ki {
                    assert(block_key(bseq[i as int]) == n);
                } else {
                    assert(pre.contains_key(n));
                }
            }
            assert forall|n: Seq<char>|
                (exists|j: int| 0 <= j < i + 1 && block_key(#[trigger] bseq[j]) == n)
                    implies #[trigger] table@.contains_key(n) by {
                let j = choose|j: int| 0 <= j < i + 1 && block_key(#[trigger] bseq[j]) == n;
                if j == i {
                    assert(table@.contains_key(ki));
                } else {
                    assert(pre.contains_key(n));
                }
            }
            assert forall|j: int|
                0 <= j < i + 1 && last_key_before(bseq, j, i + 1) implies note_value_ok(
                spec_dedent(spec_tail(#[trigger] bseq[j])),
                table@[block_key(bseq[j])],
            ) by {
                if j == i {
                    assert(table@[ki] == sub);
                } else {
                    assert(block_key(bseq[j]) != ki);
                    assert(last_key_before(bseq, j, i as int));
                    assert(table@[block_key(bseq[j])] == pre[block_key(bseq[j])]);
                }
            }
        }
        i = i + 1;
    }
    let result = SymbolTableBinding::Module(table);
    proof {
        assert forall|ii: int|
            0 <= ii < bseq.len() implies !(if !body_wf(spec_tail(#[trigger] bseq[ii])) {
            true
        } else {
            note_malformed(spec_dedent(spec_tail(bseq[ii])))
        }) by {
            assert(body_wf(spec_tail(bseq[ii])));
        }
        assert(!note_malformed(text@));
        assert(note_value_ok(text@, result));
    }
    Ok(result)
}

/// How a `note` dispatch relates the symbol table and result before and
/// after: on a well-formed body it binds the capture of the body under
/// the inline argument's key (touching no other binding) and yields
/// empty output; on a malformed body it fails and changes nothing.
pub open spec fn note_post(
    m0: Map<Seq<char>, SymbolTableBinding>,
    m1: Map<Seq<char>, SymbolTableBinding>,
    harg: Seq<char>,
    varg: Seq<char>,
    r: InterpretationResult,
) -> bool {
    if note_malformed(varg) {
        m1 == m0 && (r matches Err(e) && e == InterpretError::MalformedBlock)
    } else {
        r matches Ok(s) && s@ == Seq::<char>::empty() && m1.dom() == m0.dom().insert(
            note_key(harg),
        ) && note_value_ok(varg, m1[note_key(harg)]) && (forall|n: Seq<char>|
            n != note_key(harg) && #[trigger] m0.contains_key(n) ==> m1[n] == m0[n])
    }
}

/// The `note` handler: captures the body under the inline argument's
/// name in the symbol table and produces no output.
pub fn interpret_note(symtab: &mut SymbolTable, harg: &str, varg: &str) -> (r:
    InterpretationResult)
    requires
        old(symtab).wf(),
    ensures
        final(symtab).wf(),
        note_post(old(symtab)@, final(symtab)@, harg@, varg@, r),
{
    let value = match parse_note_value(varg) {
        Ok(v) => v,
        Err(e) => {
            return Err(e);
        },
    };
    let hn = harg.unicode_len();
    let key = if hn > 0 && harg.get_char(hn - 1) == ':' {
        harg.substring_char(0, hn - 1)
    } else {
        harg
    };
    proof {
        assert(key@ =~= note_key(harg@));
    }
    symtab.bind(key, value);
    proof {
        assert(symtab@.dom() =~= old(symtab)@.dom().insert(note_key(harg@)));
    }
    Ok(String::new())
}

/// How dispatching one invocation relates the symbol table and step
/// before and after: an unbound name fails as undefined, data and module
/// bindings are not invocable, and a directive binding runs its handler.
pub open spec fn dispatch_post(
    m0: Map<Seq<char>, SymbolTableBinding>,
    m1: Map<Seq<char>, SymbolTableBinding>,
    name: Seq<char>,
    harg: Seq<char>,
    varg: Seq<char>,
    step: DispatchStep,
) -> bool {
    if !m0.contains_key(name) {
        m1 == m0 && (step matches DispatchStep::Done(r) && r matches Err(e) && e matches
            InterpretError::UndefinedDirective(n) && n@ == name)
    } else {
        match m0[name] {
            SymbolTableBinding::Directive(d) => {
                if d.handler == HandlerKind::Note {
                    step matches DispatchStep::Done(r) && note_post(m0, m1, harg, varg, r)
                } else {
                    m1 == m0 && exec_dispatch_post(harg, varg, step)
                }
            },
            SymbolTableBinding::Data(_) => m1 == m0 && (step matches DispatchStep::Done(r)
                && r matches Err(e) && e matches InterpretError::NotInvocable(n) && n@ == name),
            SymbolTableBinding::Module(_) => m1 == m0 && (step matches DispatchStep::Done(r)
                && r matches Err(e) && e matches InterpretError::NotInvocable(n) && n@ == name),
        }
    }
}

/// How the dispatcher resolved a name, reduced to what decides the next
/// action.
enum Resolution {
    Unbound,
    NotCallable,
    Handler(HandlerKind),
}

/// Resolves the invocation's name in the symbol table and runs the
/// matching handler; the handler may rebind names for later blocks.
pub fn interpret_invocation(symtab: &mut SymbolTable, invocation: &MetaDirectiveInvocation) -> (
    step: DispatchStep)
    requires
        old(symtab).wf(),
    ensures
        final(symtab).wf(),
        dispatch_post(
            old(symtab)@,
            final(symtab)@,
            invocation.name@,
            invocation.harg@,
            invocation.varg@,
            step,
        ),
{
    let resolution: Resolution;
    match symtab.lookup(invocation.name.as_str()) {
        None => {
            resolution = Resolution::Unbound;
        },
        Some(SymbolTableBinding::Directive(d)) => {
            resolution = Resolution::Handler(d.handler);
        },
        Some(SymbolTableBinding::Data(_)) => {
            resolution = Resolution::NotCallable;
        },
        Some(SymbolTableBinding::Module(_)) => {
            resolution = Resolution::NotCallable;
        },
    }
    match resolution {
        Resolution::Unbound => DispatchStep::Done(
            Err(InterpretError::UndefinedDirective(invocation.name.clone())),
        ),
        Resolution::NotCallable => DispatchStep::Done(
            Err(InterpretError::NotInvocable(invocation.name.clone())),
        ),
        Resolution::Handler(HandlerKind::Note) => DispatchStep::Done(
            interpret_note(symtab, invocation.harg.as_str(), invocation.varg.as_str()),
        ),
        Resolution::Handler(HandlerKind::Exec) => interpret_exec(
            symtab,
            invocation.harg.as_str(),
            invocation.varg.as_str(),
        ),
    }
}

/// How interpreting one raw block relates the symbol table and step
/// before and after: a block with a malformed body fails and changes
/// nothing; otherwise its parsed invocation is dispatched.
pub open spec fn directive_post(
    m0: Map<Seq<char>, SymbolTableBinding>,
    m1: Map<Seq<char>, SymbolTableBinding>,
    b: Seq<char>,
    step: DispatchStep,
) -> bool {
    if body_wf(spec_tail(b)) {
        dispatch_post(m0, m1, spec_name(b), spec_harg(b), spec_dedent(spec_tail(b)), step)
    } else {
        m1 == m0 && (step matches DispatchStep::Done(r) && r matches Err(e) && e
            == InterpretError::MalformedBlock)
    }
}

/// Parses one raw block and dispatches the resulting invocation.
pub fn interpret_directive(symtab: &mut SymbolTable, directive: &str) -> (step: DispatchStep)
    requires
        old(symtab).wf(),
    ensures
        final(symtab).wf(),
        directive_post(old(symtab)@, final(symtab)@, directive@, step),
{
    match read_directive(directive) {
        Ok(invocation) => interpret_invocation(symtab, &invocation),
        Err(e) => DispatchStep::Done(Err(e)),
    }
}

/// A binding installed by a successful `note` dispatch is present for
/// every later dispatch in the same run: dispatching the bound name
/// afterwards can no longer fail as an undefined directive (it fails as
/// not invocable, since `note` binds data or a module).
pub proof fn lemma_note_binding_visible_later(
    m0: Map<Seq<char>, SymbolTableBinding>,
    m1: Map<Seq<char>, SymbolTableBinding>,
    m2: Map<Seq<char>, SymbolTableBinding>,
    harg: Seq<char>,
    varg: Seq<char>,
    r: InterpretationResult,
    harg2: Seq<char>,
    varg2: Seq<char>,
    step: DispatchStep,
)
    requires
        !note_malformed(varg),
        note_post(m0, m1, harg, varg, r),
        dispatch_post(m1, m2, note_key(harg), harg2, varg2, step),
    ensures
        m1.contains_key(note_key(harg)),
        step matches DispatchStep::Done(res) && res matches Err(e) && e matches
            InterpretError::NotInvocable(n) && n@ == note_key(harg),
{
    assert(m1.dom().contains(note_key(harg)));
    assert(note_value_ok(varg, m1[note_key(harg)]));
}

/// A name not yet bound when a block is dispatched makes that dispatch
/// fail as undefined and leaves the store unchanged: a binding installed
/// by a later directive is not visible to an earlier one.
pub proof fn lemma_unbound_dispatch_fails(
    m0: Map<Seq<char>, SymbolTableBinding>,
    m1: Map<Seq<char>, SymbolTableBinding>,
    name: Seq<char>,
    harg: Seq<char>,
    varg: Seq<char>,
    step: DispatchStep,
)
    requires
        dispatch_post(m0, m1, name, harg, varg, step),
        !m0.contains_key(name),
    ensures
        m1 == m0,
        step matches DispatchStep::Done(res) && res matches Err(e) && e matches
            InterpretError::UndefinedDirective(n) && n@ == name,
{
}

} // verus!
