//! Renders individual blocks as proof-skeleton methods.  At block
//! boundaries the known abstract-state information is folded into the
//! `requires` clauses of the emitted method: the code constant, the
//! entry offset, free-memory-pointer bounds, the stack heights, the
//! static slot equalities shared by every entry state, and the
//! dynamic per-height disjunctions.

use vstd::prelude::*;
use crate::analysis::{join_fold, lemma_join_fold_len, AbstractState};
use crate::block::{block_wf, lemma_block_eqv_wf, Block, BlockState, Bytecode};
use crate::instr::Instr;
use crate::render::{append_udec, append_uhex64, append_uhex64_pad, spec_udec, spec_uhex,
    spec_uhex_pad};
use crate::word::W256;

verus! {

/// The emitter's settings: which information is pruned and whether
/// liveness marks are shown.
#[derive(Clone, Copy, Debug)]
pub struct PrinterConfig {
    /// Show liveness marks in the per-state comments.
    pub debug: bool,
    /// Prune `requires` clauses to the necessary facts.
    pub minimise_requires: bool,
    /// Prune the per-state comments to the necessary facts.
    pub minimise_internal: bool,
}

/// Renders the blocks of one code section into a text buffer.
pub struct BlockPrinter {
    id: usize,
    out: String,
    settings: PrinterConfig,
}

/// The Dafny EVM name of the instruction with a given raw opcode.
fn op_name(op: u8) -> (r: &'static str) {
    if op == 0x00 {
        "Stop"
    } else if op == 0x01 {
        "Add"
    } else if op == 0x02 {
        "Mul"
    } else if op == 0x03 {
        "Sub"
    } else if op == 0x04 {
        "Div"
    } else if op == 0x05 {
        "SDiv"
    } else if op == 0x06 {
        "Mod"
    } else if op == 0x07 {
        "SMod"
    } else if op == 0x08 {
        "AddMod"
    } else if op == 0x09 {
        "MulMod"
    } else if op == 0x0a {
        "Exp"
    } else if op == 0x0b {
        "SignExtend"
    } else if op == 0x10 {
        "Lt"
    } else if op == 0x11 {
        "Gt"
    } else if op == 0x12 {
        "SLt"
    } else if op == 0x13 {
        "SGt"
    } else if op == 0x14 {
        "Eq"
    } else if op == 0x15 {
        "IsZero"
    } else if op == 0x16 {
        "And"
    } else if op == 0x17 {
        "Or"
    } else if op == 0x18 {
        "Xor"
    } else if op == 0x19 {
        "Not"
    } else if op == 0x1a {
        "Byte"
    } else if op == 0x1b {
        "Shl"
    } else if op == 0x1c {
        "Shr"
    } else if op == 0x1d {
        "Sar"
    } else if op == 0x20 {
        "Keccak256"
    } else if op == 0x30 {
        "Address"
    } else if op == 0x31 {
        "Balance"
    } else if op == 0x32 {
        "Origin"
    } else if op == 0x33 {
        "Caller"
    } else if op == 0x34 {
        "CallValue"
    } else if op == 0x35 {
        "CallDataLoad"
    } else if op == 0x36 {
        "CallDataSize"
    } else if op == 0x37 {
        "CallDataCopy"
    } else if op == 0x38 {
        "CodeSize"
    } else if op == 0x39 {
        "CodeCopy"
    } else if op == 0x3a {
        "GasPrice"
    } else if op == 0x3b {
        "ExtCodeSize"
    } else if op == 0x3c {
        "ExtCodeCopy"
    } else if op == 0x3d {
        "ReturnDataSize"
    } else if op == 0x3e {
        "ReturnDataCopy"
    } else if op == 0x3f {
        "ExtCodeHash"
    } else if op == 0x40 {
        "BlockHash"
    } else if op == 0x41 {
        "CoinBase"
    } else if op == 0x42 {
        "TimeStamp"
    } else if op == 0x43 {
        "Number"
    } else if op == 0x44 {
        "Difficulty"
    } else if op == 0x45 {
        "GasLimit"
    } else if op == 0x46 {
        "ChainID"
    } else if op == 0x47 {
        "SelfBalance"
    } else if op == 0x50 {
        "Pop"
    } else if op == 0x51 {
        "MLoad"
    } else if op == 0x52 {
        "MStore"
    } else if op == 0x53 {
        "MStore8"
    } else if op == 0x54 {
        "SLoad"
    } else if op == 0x55 {
        "SStore"
    } else if op == 0x56 {
        "Jump"
    } else if op == 0x57 {
        "JumpI"
    } else if op == 0x58 {
        "Pc"
    } else if op == 0x59 {
        "MSize"
    } else if op == 0x5a {
        "Gas"
    } else if op == 0x5b {
        "JumpDest"
    } else if op == 0xf0 {
        "Create"
    } else if op == 0xf1 {
        "Call"
    } else if op == 0xf2 {
        "CallCode"
    } else if op == 0xf3 {
        "Return"
    } else if op == 0xf4 {
        "DelegateCall"
    } else if op == 0xf5 {
        "Create2"
    } else if op == 0xfa {
        "StaticCall"
    } else if op == 0xfd {
        "Revert"
    } else if op == 0xff {
        "SelfDestruct"
    } else {
        "Invalid"
    }
}

/// The rendering of a word: `0x` then its hex digits, composed limb
/// by limb — the leading non-zero limb minimal, every lower limb
/// fully padded, so the digit string denotes exactly `w.value()`; a
/// zero word renders as `0x00`.
pub open spec fn w256_text(w: W256) -> Seq<char> {
    if w.l3 != 0 {
        "0x"@ + spec_uhex(w.l3 as int) + spec_uhex_pad(w.l2 as int, 16) + spec_uhex_pad(
            w.l1 as int,
            16,
        ) + spec_uhex_pad(w.l0 as int, 16)
    } else if w.l2 != 0 {
        "0x"@ + spec_uhex(w.l2 as int) + spec_uhex_pad(w.l1 as int, 16) + spec_uhex_pad(
            w.l0 as int,
            16,
        )
    } else if w.l1 != 0 {
        "0x"@ + spec_uhex(w.l1 as int) + spec_uhex_pad(w.l0 as int, 16)
    } else if w.l0 == 0 {
        "0x00"@
    } else {
        "0x"@ + spec_uhex(w.l0 as int)
    }
}

/// Append a word's rendering.
pub fn write_w256(out: &mut String, w: &W256)
    ensures
        final(out)@ == old(out)@ + w256_text(*w),
{
    if w.l3 != 0 {
        out.append("0x");
        append_uhex64(out, w.l3);
        append_uhex64_pad(out, w.l2, 16);
        append_uhex64_pad(out, w.l1, 16);
        append_uhex64_pad(out, w.l0, 16);
        assert(final(out)@ =~= old(out)@ + w256_text(*w));
    } else if w.l2 != 0 {
        out.append("0x");
        append_uhex64(out, w.l2);
        append_uhex64_pad(out, w.l1, 16);
        append_uhex64_pad(out, w.l0, 16);
        assert(final(out)@ =~= old(out)@ + w256_text(*w));
    } else if w.l1 != 0 {
        out.append("0x");
        append_uhex64(out, w.l1);
        append_uhex64_pad(out, w.l0, 16);
        assert(final(out)@ =~= old(out)@ + w256_text(*w));
    } else if w.l0 == 0 {
        out.append("0x00");
        assert(final(out)@ =~= old(out)@ + w256_text(*w));
    } else {
        out.append("0x");
        append_uhex64(out, w.l0);
        assert(final(out)@ =~= old(out)@ + w256_text(*w));
    }
}

/// Whether the state still knows at least one stack slot.
fn has_value(st: &AbstractState) -> bool {
    let stack = st.stack();
    let mut i: usize = 0;
    while i < stack.len()
        invariant
            i <= stack@.len(),
        decreases stack@.len() - i,
    {
        match stack[i] {
            Some(_) => {
                return true;
            },
            None => {},
        }
        i += 1;
    }
    false
}

/// Whether a non-empty set of states offers a value in each state.
fn is_useful(states: &Vec<AbstractState>) -> bool {
    if states.len() == 0 {
        return false;
    }
    let mut k: usize = 0;
    while k < states.len()
        invariant
            k <= states@.len(),
        decreases states@.len() - k,
    {
        if !has_value(&states[k]) {
            return false;
        }
        k += 1;
    }
    true
}

/// The buffer grew only by appending: the old text is a prefix of
/// the new one.
pub open spec fn extends(older: Seq<char>, newer: Seq<char>) -> bool {
    older.len() <= newer.len() && newer.subrange(0, older.len() as int) == older
}

/// Appending extends.
pub proof fn lemma_extends_append(a: Seq<char>, d: Seq<char>)
    ensures
        extends(a, a + d),
{
    assert((a + d).subrange(0, a.len() as int) =~= a);
}

/// The pinned opening of every emitted method: its name carries the
/// section and the entry offset, and the first two `requires` pin the
/// code constant and the program counter.
pub open spec fn method_header_text(id: int, pc: int) -> Seq<char> {
    "\tmethod block_"@ + spec_udec(id) + "_"@ + "0x"@ + spec_uhex_pad(pc, 4)
        + "(st': EvmState.ExecutingState) returns (st'': EvmState.State)\n"@
        + "\trequires st'.evm.code == Code.Create(BYTECODE_"@ + spec_udec(id) + ")\n"@
        + "\trequires st'.WritesPermitted() && st'.PC() == "@ + "0x"@ + spec_uhex_pad(pc, 4)
        + "\n"@
}

/// The clauses emitted for an unreachable block.
pub open spec fn deadcode_text() -> Seq<char> {
    "\t// Deadcode\n"@ + "\trequires false\n"@
}

/// The comment opening the free-memory-pointer requirements.
pub open spec fn fmp_marker() -> Seq<char> {
    "\t// Free memory pointer\n"@
}

/// The comment opening the stack-height requirements.
pub open spec fn stack_marker() -> Seq<char> {
    "\t// Stack height(s)\n"@
}

/// Texts that continue the same prefix with characters that disagree
/// cannot both be prefixes of one text.
pub proof fn lemma_distinct_continuation(a: Seq<char>, x: Seq<char>, y: Seq<char>, t: Seq<char>)
    requires
        extends(a + x, t),
        x.len() > 4,
        y.len() > 4,
        x[4] != y[4],
    ensures
        !extends(a + y, t),
{
    if extends(a + y, t) {
        let p = a.len() as int + 4;
        assert(t.subrange(0, (a + x).len() as int)[p] == (a + x)[p]);
        assert(t.subrange(0, (a + y).len() as int)[p] == (a + y)[p]);
        assert(t[p] == x[4]);
        assert(t[p] == y[4]);
    }
}

/// The text holds the pattern as a contiguous sub-sequence.
pub open spec fn contains_text(text: Seq<char>, pat: Seq<char>) -> bool {
    exists|o: int|
        0 <= o && o + pat.len() <= text.len() && (#[trigger] text.subrange(
            o,
            o + pat.len() as int,
        )) == pat
}

/// Appending on the right keeps every contained pattern.
pub proof fn lemma_contains_extends(t: Seq<char>, t2: Seq<char>, pat: Seq<char>)
    requires
        contains_text(t, pat),
        extends(t, t2),
    ensures
        contains_text(t2, pat),
{
    let o = choose|o: int|
        0 <= o && o + pat.len() <= t.len() && (#[trigger] t.subrange(o, o + pat.len() as int))
            == pat;
    assert(t2.subrange(o, o + pat.len() as int) =~= pat) by {
        assert forall|q: int| 0 <= q < pat.len() implies t2.subrange(
            o,
            o + pat.len() as int,
        )[q] == pat[q] by {
            assert(t2.subrange(0, t.len() as int)[o + q] == t[o + q]);
            assert(t.subrange(o, o + pat.len() as int)[q] == pat[q]);
        }
    }
}

/// Embedding in a larger text keeps every contained pattern.
pub proof fn lemma_contains_embed(a: Seq<char>, b: Seq<char>, c: Seq<char>, pat: Seq<char>)
    requires
        contains_text(b, pat),
    ensures
        contains_text(a + b + c, pat),
{
    let o = choose|o: int|
        0 <= o && o + pat.len() <= b.len() && (#[trigger] b.subrange(o, o + pat.len() as int))
            == pat;
    let t = a + b + c;
    assert(t.subrange(a.len() + o, a.len() + o + pat.len() as int) =~= pat) by {
        assert forall|q: int| 0 <= q < pat.len() implies t.subrange(
            a.len() + o,
            a.len() + o + pat.len() as int,
        )[q] == pat[q] by {
            assert(t[a.len() + o + q] == b[o + q]);
            assert(b.subrange(o, o + pat.len() as int)[q] == pat[q]);
        }
    }
}

/// A text starting at an offset of the whole is contained in it.
pub proof fn lemma_contains_at(t: Seq<char>, o: int, pat: Seq<char>)
    requires
        0 <= o,
        o + pat.len() <= t.len(),
        t.subrange(o, o + pat.len() as int) == pat,
    ensures
        contains_text(t, pat),
{
}

/// A text that continues with either requirements marker does not
/// continue with the dead-code clauses.
pub proof fn lemma_not_deadcode(a: Seq<char>, t: Seq<char>)
    requires
        extends(a + fmp_marker(), t) || extends(a + stack_marker(), t),
    ensures
        !extends(a + deadcode_text(), t),
{
    reveal_strlit("\t// Free memory pointer\n");
    reveal_strlit("\t// Stack height(s)\n");
    reveal_strlit("\t// Deadcode\n");
    assert(deadcode_text()[4] == "\t// Deadcode\n"@[4]);
    if extends(a + fmp_marker(), t) {
        lemma_distinct_continuation(a, fmp_marker(), deadcode_text(), t);
    } else {
        lemma_distinct_continuation(a, stack_marker(), deadcode_text(), t);
    }
}

/// Appending is transitive.
pub proof fn lemma_extends_trans(a: Seq<char>, b: Seq<char>, c: Seq<char>)
    requires
        extends(a, b),
        extends(b, c),
    ensures
        extends(a, c),
{
    assert(c.subrange(0, a.len() as int) =~= a) by {
        assert forall|i: int| 0 <= i < a.len() implies c.subrange(0, a.len() as int)[i] == a[i]
            by {
            assert(c.subrange(0, b.len() as int)[i] == b[i]);
            assert(b.subrange(0, a.len() as int)[i] == a[i]);
        }
    }
}

impl BlockPrinter {
    /// The text rendered so far.
    pub closed spec fn text(&self) -> Seq<char> {
        self.out@
    }

    /// The code section this printer renders for.
    pub closed spec fn spec_id(&self) -> usize {
        self.id
    }

    /// A fresh printer for the given code section.
    pub fn new(id: usize, settings: PrinterConfig) -> (r: BlockPrinter)
        ensures
            r.text().len() == 0,
            r.spec_id() == id,
    {
        BlockPrinter { id, out: String::new(), settings }
    }

    /// Hand back the rendered text.
    pub fn into_string(self) -> (r: String)
        ensures
            r@ == self.text(),
    {
        self.out
    }

    fn app(&mut self, t: &str)
        ensures
            final(self).text() == old(self).text() + t@,
            final(self).spec_id() == old(self).spec_id(),
    {
        self.out.append(t);
    }

    fn app_string(&mut self, t: &String)
        ensures
            final(self).text() == old(self).text() + t@,
            final(self).spec_id() == old(self).spec_id(),
    {
        let r: &str = t;
        self.out.append(r);
    }

    fn app_udec(&mut self, n: usize)
        ensures
            final(self).text() == old(self).text() + crate::render::spec_udec(n as int),
            final(self).spec_id() == old(self).spec_id(),
    {
        append_udec(&mut self.out, n);
    }

    fn app_hex(&mut self, n: usize)
        ensures
            final(self).text() == old(self).text() + "0x"@ + spec_uhex(n as int),
            final(self).spec_id() == old(self).spec_id(),
    {
        self.out.append("0x");
        append_uhex64(&mut self.out, n as u64);
        assert(final(self).text() =~= old(self).text() + "0x"@ + spec_uhex(n as int));
    }

    fn app_hex_pad4(&mut self, n: usize)
        ensures
            final(self).text() == old(self).text() + "0x"@ + spec_uhex_pad(n as int, 4),
            final(self).spec_id() == old(self).spec_id(),
    {
        self.out.append("0x");
        append_uhex64_pad(&mut self.out, n as u64, 4);
        assert(final(self).text() =~= old(self).text() + "0x"@ + spec_uhex_pad(n as int, 4));
    }

    fn app_hex_byte(&mut self, b: u8)
        ensures
            final(self).text() == old(self).text() + spec_uhex_pad(b as int, 2),
            final(self).spec_id() == old(self).spec_id(),
    {
        append_uhex64_pad(&mut self.out, b as u64, 2);
    }

    fn app_word(&mut self, w: &W256)
        ensures
            final(self).text() == old(self).text() + w256_text(*w),
            final(self).spec_id() == old(self).spec_id(),
    {
        write_w256(&mut self.out, w);
    }

    /// Render one block as a verification method.  The emitted text
    /// opens with the pinned method header — the block's entry offset
    /// in the name, the code-constant `requires` and the PC
    /// `requires` — followed, for an unreachable block, by the
    /// dead-code clauses.
    #[verifier::rlimit(100)]
    #[verifier::spinoff_prover]
    pub fn print_block(&mut self, block: &Block)
        requires
            block_wf(*block),
        ensures
            final(self).spec_id() == old(self).spec_id(),
            extends(old(self).text(), final(self).text()),
            final(self).text().len() >= old(self).text().len() + method_header_text(
                old(self).spec_id() as int,
                block.spec_pc() as int,
            ).len(),
            final(self).text().subrange(
                old(self).text().len() as int,
                old(self).text().len() + method_header_text(
                    old(self).spec_id() as int,
                    block.spec_pc() as int,
                ).len() as int,
            ) == method_header_text(old(self).spec_id() as int, block.spec_pc() as int),
            block.states_seq()[0].models().len() == 0 ==> final(self).text().subrange(
                old(self).text().len() as int,
                old(self).text().len() + (method_header_text(
                    old(self).spec_id() as int,
                    block.spec_pc() as int,
                ) + deadcode_text()).len() as int,
            ) == method_header_text(old(self).spec_id() as int, block.spec_pc() as int)
                + deadcode_text(),
            (block.states_seq()[0].models().len() == 0) <==> extends(
                old(self).text() + (method_header_text(
                    old(self).spec_id() as int,
                    block.spec_pc() as int,
                ) + deadcode_text()),
                final(self).text(),
            ),
    {
        let ghost base = self.text();
        let ghost hdr = method_header_text(self.spec_id() as int, block.spec_pc() as int);
        let unreachable = block.is_unreachable();
        // Method signature.
        self.app("\tmethod block_");
        self.app_udec(self.id);
        self.app("_");
        self.app_hex_pad4(block.pc());
        self.app("(st': EvmState.ExecutingState) returns (st'': EvmState.State)\n");
        // Standard requires.
        self.app("\trequires st'.evm.code == Code.Create(BYTECODE_");
        self.app_udec(self.id);
        self.app(")\n");
        self.app("\trequires st'.WritesPermitted() && st'.PC() == ");
        self.app_hex_pad4(block.pc());
        self.app("\n");
        proof {
            assert(self.text() =~= base + hdr);
        }
        if unreachable {
            self.app("\t// Deadcode\n");
            self.app("\trequires false\n");
            proof {
                assert(self.text() =~= base + (hdr + deadcode_text()));
                assert(extends(base + (hdr + deadcode_text()), self.text())) by {
                    assert(self.text().subrange(
                        0,
                        (base + (hdr + deadcode_text())).len() as int,
                    ) =~= base + (hdr + deadcode_text()));
                }
            }
        } else {
            let ghost t1 = self.text();
            self.print_fmp_requires(block);
            proof {
                assert(t1 == base + hdr);
                assert(extends(base + hdr, t1)) by {
                    assert(t1.subrange(0, (base + hdr).len() as int) =~= base + hdr);
                }
                lemma_extends_trans(base + hdr, t1, self.text());
            }
            let ghost t2 = self.text();
            self.print_stack_requires(block);
            proof {
                lemma_extends_trans(base + hdr, t2, self.text());
                if t2 == t1 {
                    assert(extends(base + hdr + stack_marker(), self.text()));
                } else {
                    assert(extends(t1 + fmp_marker(), t2));
                    lemma_extends_trans(t1 + fmp_marker(), t2, self.text());
                    assert(extends(base + hdr + fmp_marker(), self.text()));
                }
            }
        }
        let ghost t3 = self.text();
        self.app("\t{\n");
        self.app("\t\tvar st := st';\n");
        proof {
            assert(extends(t3, self.text())) by {
                assert(self.text().subrange(0, t3.len() as int) =~= t3);
            }
            assert(extends(base + hdr, self.text())) by {
                assert(self.text().subrange(0, (base + hdr).len() as int) =~= base + hdr);
            }
            if unreachable {
                assert(extends(base + (hdr + deadcode_text()), self.text())) by {
                    assert(self.text().subrange(
                        0,
                        (base + (hdr + deadcode_text())).len() as int,
                    ) =~= base + (hdr + deadcode_text()));
                }
            } else {
                if extends(base + hdr + fmp_marker(), t3) {
                    lemma_extends_trans(base + hdr + fmp_marker(), t3, self.text());
                } else {
                    lemma_extends_trans(base + hdr + stack_marker(), t3, self.text());
                }
            }
        }
        let bytecodes = block.bytecodes();
        let mut i: usize = 0;
        while i < bytecodes.len()
            invariant
                base == old(self).text(),
                hdr == method_header_text(old(self).spec_id() as int, block.spec_pc() as int),
                self.spec_id() == old(self).spec_id(),
                extends(base + hdr, self.text()),
                unreachable ==> extends(base + (hdr + deadcode_text()), self.text()),
                !unreachable ==> (extends(base + hdr + fmp_marker(), self.text()) || extends(
                    base + hdr + stack_marker(),
                    self.text(),
                )),
                unreachable == (block.states_seq()[0].models().len() == 0),
                block_wf(*block),
                bytecodes@ == block.bytecodes_seq(),
                i <= bytecodes@.len(),
            decreases bytecodes@.len() - i,
        {
            let state = block.state(i);
            let ghost pre = self.text();
            self.print_debug_info(state);
            proof {
                lemma_extends_trans(base + hdr, pre, self.text());
                if unreachable {
                    lemma_extends_trans(base + (hdr + deadcode_text()), pre, self.text());
                } else {
                    if extends(base + hdr + fmp_marker(), pre) {
                        lemma_extends_trans(base + hdr + fmp_marker(), pre, self.text());
                    } else {
                        lemma_extends_trans(base + hdr + stack_marker(), pre, self.text());
                    }
                }
            }
            let ghost pre2 = self.text();
            self.print_code(&bytecodes[i]);
            proof {
                lemma_extends_trans(base + hdr, pre2, self.text());
                if unreachable {
                    lemma_extends_trans(base + (hdr + deadcode_text()), pre2, self.text());
                } else {
                    if extends(base + hdr + fmp_marker(), pre2) {
                        lemma_extends_trans(base + hdr + fmp_marker(), pre2, self.text());
                    } else {
                        lemma_extends_trans(base + hdr + stack_marker(), pre2, self.text());
                    }
                }
            }
            i += 1;
        }
        let ghost tail = self.text();
        match block.next() {
            Some(pc) => {
                self.app("\t\tst := block_");
                self.app_udec(self.id);
                self.app("_");
                self.app_hex_pad4(pc);
                self.app("(st);\n");
                self.app("\t\treturn st;\n");
            },
            None => {
                self.app("\t\treturn st;\n");
            },
        }
        self.app("\t}\n\n");
        proof {
            assert(extends(tail, self.text())) by {
                assert(self.text().subrange(0, tail.len() as int) =~= tail);
            }
            lemma_extends_trans(base + hdr, tail, self.text());
            if unreachable {
                lemma_extends_trans(base + (hdr + deadcode_text()), tail, self.text());
            } else {
                if extends(base + hdr + fmp_marker(), tail) {
                    lemma_extends_trans(base + hdr + fmp_marker(), tail, self.text());
                } else {
                    lemma_extends_trans(base + hdr + stack_marker(), tail, self.text());
                }
                lemma_not_deadcode(base + hdr, self.text());
                assert((base + hdr) + deadcode_text() =~= base + (hdr + deadcode_text()));
            }
            // The pinned prefix claims follow from the extends facts.
            assert(extends(base, base + hdr)) by {
                lemma_extends_append(base, hdr);
            }
            lemma_extends_trans(base, base + hdr, self.text());
            assert(self.text().subrange(base.len() as int, base.len() + hdr.len() as int) =~= hdr) by {
                assert forall|q: int|
                    0 <= q < hdr.len() implies self.text().subrange(
                    base.len() as int,
                    base.len() + hdr.len() as int,
                )[q] == hdr[q] by {
                    assert(self.text().subrange(0, (base + hdr).len() as int)[base.len() + q]
                        == (base + hdr)[base.len() + q]);
                }
            }
            if unreachable {
                let full = hdr + deadcode_text();
                assert(self.text().subrange(base.len() as int, base.len() + full.len() as int) =~= full)
                    by {
                    assert forall|q: int|
                        0 <= q < full.len() implies self.text().subrange(
                        base.len() as int,
                        base.len() + full.len() as int,
                    )[q] == full[q] by {
                        assert(self.text().subrange(0, (base + full).len() as int)[base.len()
                            + q] == (base + full)[base.len() + q]);
                    }
                }
            }
        }
    }

    /// Free-memory-pointer requirements, when its bounds are known and
    /// past the scratch area.
    fn print_fmp_requires(&mut self, block: &Block)
        requires
            block_wf(*block),
        ensures
            final(self).spec_id() == old(self).spec_id(),
            extends(old(self).text(), final(self).text()),
            final(self).text() == old(self).text() || extends(
                old(self).text() + fmp_marker(),
                final(self).text(),
            ),
    {
        let ghost base = self.text();
        proof {
            assert(extends(base, self.text())) by {
                assert(self.text().subrange(0, base.len() as int) =~= base);
            }
        }
        match block.freemem_ptrs() {
            Some((v, w)) => {
                if v >= 0x60 {
                    self.app("\t// Free memory pointer\n");
                    proof {
                        assert(self.text() == base + fmp_marker());
                    }
                    self.app("\trequires st'.MemSize() >= 0x60 && ");
                    if v == w {
                        self.app("st'.Read(0x40) == ");
                        self.app_hex(v);
                        self.app("\n");
                    } else {
                        self.app("st'.Read(0x40) >= ");
                        self.app_hex(v);
                        self.app("\n");
                    }
                }
            },
            None => {},
        }
        proof {
            assert(extends(base, self.text())) by {
                assert(self.text().subrange(0, base.len() as int) =~= base);
            }
            if self.text() != base {
                assert(extends(base + fmp_marker(), self.text())) by {
                    assert(self.text().subrange(0, (base + fmp_marker()).len() as int) =~= base
                        + fmp_marker());
                }
            }
        }
    }

    /// Stack requirements: heights, then the static slot equalities of
    /// the consensus state, then the per-height dynamic disjunctions.
    fn print_stack_requires(&mut self, block: &Block)
        requires
            block_wf(*block),
            block.states_seq()[0].models().len() > 0,
        ensures
            final(self).spec_id() == old(self).spec_id(),
            extends(old(self).text(), final(self).text()),
            extends(old(self).text() + stack_marker(), final(self).text()),
    {
        let ghost base = self.text();
        let mut blk = block.dup();
        proof {
            lemma_block_eqv_wf(*block, blk);
        }
        // Prune the block information, if asked to.
        if self.settings.minimise_requires {
            blk.minimise();
        }
        // Generic stack bounds.
        self.app("\t// Stack height(s)\n");
        proof {
            lemma_extends_append(base, "\t// Stack height(s)\n"@);
            assert(self.text() == base + stack_marker());
        }
        let ghost t1 = self.text();
        self.print_stack_heights(&blk);
        proof {
            lemma_extends_trans(base, t1, self.text());
        }
        // The consensus of the entry states.
        let join = blk.entry_state();
        // Static items.
        let ghost t2 = self.text();
        self.print_static_stack_requires(&join);
        proof {
            lemma_extends_trans(base, t2, self.text());
        }
        // Dynamic items.
        let ghost t3 = self.text();
        self.print_dynamic_stack_requires(&blk, &join);
        proof {
            lemma_extends_trans(base, t3, self.text());
            lemma_extends_trans(t1, t2, t3);
            lemma_extends_trans(t1, t3, self.text());
            assert(extends(base + stack_marker(), self.text()));
        }
    }

    fn print_stack_heights(&mut self, block: &Block)
        requires
            block_wf(*block),
        ensures
            final(self).spec_id() == old(self).spec_id(),
            extends(old(self).text(), final(self).text()),
    {
        let ghost base = self.text();
        let (min, max) = block.stack_bounds();
        let heights = block.stack_heights();
        let mut contig = true;
        let mut i: usize = 0;
        while i < heights.len()
            invariant
                i <= heights@.len(),
            decreases heights@.len() - i,
        {
            if i > usize::MAX - min || heights[i] != min + i {
                contig = false;
            }
            i += 1;
        }
        if min == max {
            self.app("\trequires st'.Operands() == ");
            self.app_udec(min);
            self.app("\n");
        } else if contig {
            self.app("\trequires st'.Operands() >= ");
            self.app_udec(min);
            self.app(" && st'.Operands() <= ");
            self.app_udec(max);
            self.app("\n");
        } else {
            self.app("\trequires st'.Operands() in {");
            proof {
                lemma_extends_append(base, "\trequires st'.Operands() in {"@);
            }
            let mut k: usize = 0;
            while k < heights.len()
                invariant
                    base == old(self).text(),
                    self.spec_id() == old(self).spec_id(),
                    extends(base, self.text()),
                    k <= heights@.len(),
                decreases heights@.len() - k,
            {
                let ghost pre = self.text();
                if k != 0 {
                    self.app(",");
                }
                self.app_udec(heights[k]);
                proof {
                    assert(extends(pre, self.text())) by {
                        assert(self.text().subrange(0, pre.len() as int) =~= pre);
                    }
                    lemma_extends_trans(base, pre, self.text());
                }
                k += 1;
            }
            self.app("}\n");
        }
        proof {
            assert(extends(base, self.text())) by {
                assert(self.text().subrange(0, base.len() as int) =~= base);
            }
        }
    }

    /// The per-height disjunctions of entry states, with the consensus
    /// facts cancelled out.
    fn print_dynamic_stack_requires(&mut self, block: &Block, join: &AbstractState)
        requires
            block_wf(*block),
            block.states_seq()[0].models().len() > 0,
            join@ == join_fold(block.states_seq()[0].models()),
        ensures
            final(self).spec_id() == old(self).spec_id(),
            extends(old(self).text(), final(self).text()),
    {
        let ghost base = self.text();
        proof {
            assert(extends(base, self.text())) by {
                assert(self.text().subrange(0, base.len() as int) =~= base);
            }
        }
        let (min, max) = block.stack_bounds();
        let mut first_dynamic = true;
        let mut sh: usize = min;
        while sh <= max
            invariant
                base == old(self).text(),
                self.spec_id() == old(self).spec_id(),
                extends(base, self.text()),
                block_wf(*block),
                block.states_seq()[0].models().len() > 0,
                join@ == join_fold(block.states_seq()[0].models()),
                min <= sh,
            decreases max - sh,
        {
            let ghost round_pre = self.text();
            // The entry states of exactly this height, reduced to what
            // differs from the consensus.
            let entry = block.entry_states();
            let ghost models = block.states_seq()[0].models();
            let mut sts: Vec<AbstractState> = Vec::new();
            let mut k: usize = 0;
            while k < entry.len()
                invariant
                    entry@.map_values(|x: AbstractState| x@) == models,
                    models == block.states_seq()[0].models(),
                    block.states_seq()[0].models().len() > 0,
                    join@ == join_fold(block.states_seq()[0].models()),
                    k <= entry@.len(),
                decreases entry@.len() - k,
            {
                if entry[k].stack().len() == sh {
                    let mut ns = entry[k].dup();
                    proof {
                        lemma_join_fold_len(models);
                        assert(entry@[k as int]@ == models[k as int]);
                    }
                    ns.cancel(join);
                    sts.push(ns);
                }
                k += 1;
            }
            if is_useful(&sts) {
                if first_dynamic {
                    self.app("\t// Dynamic stack items\n");
                    first_dynamic = false;
                }
                self.app("\trequires ");
                if min != max {
                    self.app("st'.Operands() == ");
                    self.app_udec(sh);
                    self.app(" ==> (");
                }
                proof {
                    assert(extends(round_pre, self.text())) by {
                        assert(self.text().subrange(0, round_pre.len() as int) =~= round_pre);
                    }
                    lemma_extends_trans(base, round_pre, self.text());
                }
                let mut q: usize = 0;
                while q < sts.len()
                    invariant
                        base == old(self).text(),
                        self.spec_id() == old(self).spec_id(),
                        extends(base, self.text()),
                        q <= sts@.len(),
                    decreases sts@.len() - q,
                {
                    let ghost pre = self.text();
                    if q != 0 {
                        self.app(" || ");
                    }
                    let ghost mid = self.text();
                    proof {
                        assert(extends(pre, mid)) by {
                            assert(mid.subrange(0, pre.len() as int) =~= pre);
                        }
                    }
                    let st = &sts[q];
                    self.print_state(st);
                    proof {
                        lemma_extends_trans(pre, mid, self.text());
                        lemma_extends_trans(base, pre, self.text());
                    }
                    q += 1;
                }
                let ghost after_q = self.text();
                if min != max {
                    self.app(")");
                }
                self.app("\n");
                proof {
                    assert(extends(after_q, self.text())) by {
                        assert(self.text().subrange(0, after_q.len() as int) =~= after_q);
                    }
                    lemma_extends_trans(base, after_q, self.text());
                }
            }
            if sh == max {
                return ;
            }
            sh += 1;
        }
    }

    /// The slot equalities every entry state agrees on.
    fn print_static_stack_requires(&mut self, join: &AbstractState)
        ensures
            final(self).spec_id() == old(self).spec_id(),
            extends(old(self).text(), final(self).text()),
    {
        let ghost base = self.text();
        let stack = join.stack();
        let mut any: bool = false;
        let mut i: usize = 0;
        while i < stack.len()
            invariant
                i <= stack@.len(),
            decreases stack@.len() - i,
        {
            match stack[i] {
                Some(_) => {
                    any = true;
                },
                None => {},
            }
            i += 1;
        }
        if any {
            self.app("\t// Static stack items\n");
            self.app("\trequires ");
            let ghost mid = self.text();
            proof {
                assert(extends(base, mid)) by {
                    assert(mid.subrange(0, base.len() as int) =~= base);
                }
            }
            self.print_state(join);
            let ghost mid2 = self.text();
            proof {
                lemma_extends_trans(base, mid, mid2);
            }
            self.app("\n");
            proof {
                lemma_extends_append(mid2, "\n"@);
                lemma_extends_trans(base, mid2, self.text());
            }
        }
        proof {
            assert(extends(base, self.text())) by {
                assert(self.text().subrange(0, base.len() as int) =~= base);
            }
        }
    }

    /// One state's known slots as a conjunction of `Peek` equalities.
    fn print_state(&mut self, state: &AbstractState)
        ensures
            final(self).spec_id() == old(self).spec_id(),
            extends(old(self).text(), final(self).text()),
    {
        let ghost base = self.text();
        let stack = state.stack();
        self.app("(");
        proof {
            lemma_extends_append(base, "("@);
        }
        let mut first = true;
        let mut i: usize = 0;
        while i < stack.len()
            invariant
                base == old(self).text(),
                self.spec_id() == old(self).spec_id(),
                extends(base, self.text()),
                i <= stack@.len(),
            decreases stack@.len() - i,
        {
            let ghost pre = self.text();
            match stack[i] {
                Some(v) => {
                    if !first {
                        self.app(" && ");
                    }
                    self.app("st'.Peek(");
                    self.app_udec(i);
                    self.app(") == ");
                    self.app_word(&v);
                    first = false;
                },
                None => {},
            }
            proof {
                assert(extends(pre, self.text())) by {
                    assert(self.text().subrange(0, pre.len() as int) =~= pre);
                }
                lemma_extends_trans(base, pre, self.text());
            }
            i += 1;
        }
        let ghost tail = self.text();
        self.app(")");
        proof {
            lemma_extends_append(tail, ")"@);
            lemma_extends_trans(base, tail, self.text());
        }
    }

    /// The per-position comment lines showing each reached state.
    fn print_debug_info(&mut self, state: &BlockState)
        ensures
            final(self).spec_id() == old(self).spec_id(),
            extends(old(self).text(), final(self).text()),
    {
        let ghost base = self.text();
        proof {
            assert(extends(base, self.text())) by {
                assert(self.text().subrange(0, base.len() as int) =~= base);
            }
        }
        let mut st = state.dup();
        if self.settings.minimise_internal {
            st.minimise();
        }
        let states = st.states();
        let mut k: usize = 0;
        while k < states.len()
            invariant
                base == old(self).text(),
                self.spec_id() == old(self).spec_id(),
                extends(base, self.text()),
                k <= states@.len(),
            decreases states@.len() - k,
        {
            let ghost line_pre = self.text();
            self.app("\t\t//|");
            match states[k].freemem_ptr() {
                Some(w) => {
                    self.app("fp=");
                    self.app_hex_pad4(w);
                },
                None => {},
            }
            self.app("|");
            proof {
                assert(extends(line_pre, self.text())) by {
                    assert(self.text().subrange(0, line_pre.len() as int) =~= line_pre);
                }
                lemma_extends_trans(base, line_pre, self.text());
            }
            let stack = states[k].stack();
            let mut i: usize = 0;
            while i < stack.len()
                invariant
                    base == old(self).text(),
                    self.spec_id() == old(self).spec_id(),
                    extends(base, self.text()),
                    i <= stack@.len(),
                decreases stack@.len() - i,
            {
                let ghost pre = self.text();
                if i != 0 {
                    self.app(",");
                }
                match stack[i] {
                    Some(w) => {
                        self.app_word(&w);
                    },
                    None => {
                        self.app("_");
                    },
                }
                if self.settings.debug && st.necessary_stack_item(i) {
                    self.app("*");
                }
                proof {
                    assert(extends(pre, self.text())) by {
                        assert(self.text().subrange(0, pre.len() as int) =~= pre);
                    }
                    lemma_extends_trans(base, pre, self.text());
                }
                i += 1;
            }
            let ghost tail = self.text();
            self.app("|\n");
            proof {
                lemma_extends_append(tail, "|\n"@);
                lemma_extends_trans(base, tail, self.text());
            }
            k += 1;
        }
    }

    /// One bytecode as its Dafny EVM lowering.
    fn print_code(&mut self, code: &Bytecode)
        ensures
            final(self).spec_id() == old(self).spec_id(),
            extends(old(self).text(), final(self).text()),
    {
        let ghost base = self.text();
        match code {
            Bytecode::Assert(_, s) => {
                self.app("\t\tassert ");
                self.app_string(s);
                self.app(";\n");
            },
            Bytecode::Comment(s) => {
                self.app("\t\t// ");
                self.app_string(s);
                self.app("\n");
            },
            Bytecode::Mask(_) => {
                self.app("\t\tst := And(st);\n");
            },
            Bytecode::Jump(targets) => {
                self.print_jump(targets);
            },
            Bytecode::JumpI(targets) => {
                self.print_jumpi(targets);
            },
            Bytecode::Unit(insn) => {
                self.print_unit(insn);
            },
        }
        proof {
            assert(extends(base, self.text())) by {
                assert(self.text().subrange(0, base.len() as int) =~= base);
            }
        }
    }

    fn print_unit(&mut self, insn: &Instr)
        ensures
            final(self).spec_id() == old(self).spec_id(),
            extends(old(self).text(), final(self).text()),
    {
        let ghost base = self.text();
        match insn {
            Instr::Dup(n) => {
                self.app("\t\tst := Dup(st,");
                self.app_udec(*n as usize);
                self.app(");\n");
            },
            Instr::Swap(n) => {
                self.app("\t\tst := Swap(st,");
                self.app_udec(*n as usize);
                self.app(");\n");
            },
            Instr::Log(n) => {
                self.app("\t\tst := LogN(st,");
                self.app_udec(*n as usize);
                self.app(");\n");
            },
            Instr::Push(bytes) => {
                let n = bytes.len();
                self.app("\t\tst := ");
                if n == 1 {
                    self.app("Push1(st,");
                } else if n == 2 {
                    self.app("Push2(st,");
                } else if n == 3 {
                    self.app("Push3(st,");
                } else if n == 4 {
                    self.app("Push4(st,");
                } else {
                    self.app("PushN(st,");
                    self.app_udec(n);
                    self.app(",");
                }
                self.app("0x");
                proof {
                    assert(extends(base, self.text())) by {
                        assert(self.text().subrange(0, base.len() as int) =~= base);
                    }
                }
                let mut i: usize = 0;
                while i < bytes.len()
                    invariant
                        base == old(self).text(),
                        self.spec_id() == old(self).spec_id(),
                        extends(base, self.text()),
                        i <= bytes@.len(),
                    decreases bytes@.len() - i,
                {
                    let ghost pre = self.text();
                    self.app_hex_byte(bytes[i]);
                    proof {
                        lemma_extends_append(pre, spec_uhex_pad(bytes@[i as int] as int, 2));
                        lemma_extends_trans(base, pre, self.text());
                    }
                    i += 1;
                }
                self.app(");\n");
            },
            Instr::Push0 => {
                self.app("\t\tst := Push0(st);\n");
            },
            Instr::JumpDest => {
                self.app("\t\tst := JumpDest(st);\n");
            },
            Instr::Jump => {
                self.app("\t\tst := Jump(st);\n");
            },
            Instr::JumpI => {
                self.app("\t\tst := JumpI(st);\n");
            },
            Instr::Other { op, pops: _, fallthru: _ } => {
                if *op == 0xf1 {
                    self.print_call();
                } else {
                    self.app("\t\tst := ");
                    self.app(op_name(*op));
                    self.app("(st);\n");
                }
            },
            Instr::Data(_) => {
                // Non-executable bytes carry no lowering.
                self.app("\t\t// data\n");
            },
            Instr::RJump(_) => {
                self.app("\t\t// static jump\n");
            },
            Instr::RJumpI(_) => {
                self.app("\t\t// static conditional jump\n");
            },
            Instr::Havoc(_) => {
                self.app("\t\t// havoc\n");
            },
        }
        proof {
            assert(extends(base, self.text())) by {
                assert(self.text().subrange(0, base.len() as int) =~= base);
            }
        }
    }

    fn print_jump(&mut self, targets: &Vec<usize>)
        ensures
            final(self).spec_id() == old(self).spec_id(),
            extends(old(self).text(), final(self).text()),
    {
        let ghost base = self.text();
        self.print_jump_assumes(targets);
        let ghost mid = self.text();
        self.app("\t\tst := Jump(st);\n");
        if targets.len() == 1 {
            self.app("\t\tst := block_");
            self.app_udec(self.id);
            self.app("_");
            self.app_hex_pad4(targets[0]);
            self.app("(st);\n");
            proof {
                assert(extends(mid, self.text())) by {
                    assert(self.text().subrange(0, mid.len() as int) =~= mid);
                }
                lemma_extends_trans(base, mid, self.text());
            }
        } else {
            self.app("\t\tmatch st.PC() {\n");
            proof {
                assert(extends(mid, self.text())) by {
                    assert(self.text().subrange(0, mid.len() as int) =~= mid);
                }
                lemma_extends_trans(base, mid, self.text());
            }
            let mut k: usize = 0;
            while k < targets.len()
                invariant
                    base == old(self).text(),
                    self.spec_id() == old(self).spec_id(),
                    extends(base, self.text()),
                    k <= targets@.len(),
                decreases targets@.len() - k,
            {
                let ghost pre = self.text();
                self.app("\t\t\tcase ");
                self.app_hex(targets[k]);
                self.app(" => { st := block_");
                self.app_udec(self.id);
                self.app("_");
                self.app_hex_pad4(targets[k]);
                self.app("(st); }\n");
                proof {
                    assert(extends(pre, self.text())) by {
                        assert(self.text().subrange(0, pre.len() as int) =~= pre);
                    }
                    lemma_extends_trans(base, pre, self.text());
                }
                k += 1;
            }
            let ghost tail = self.text();
            self.app("\t}\n");
            proof {
                lemma_extends_append(tail, "\t}\n"@);
                lemma_extends_trans(base, tail, self.text());
            }
        }
    }

    fn print_jumpi(&mut self, targets: &Vec<usize>)
        ensures
            final(self).spec_id() == old(self).spec_id(),
            extends(old(self).text(), final(self).text()),
    {
        let ghost base = self.text();
        self.print_jump_assumes(targets);
        let ghost mid = self.text();
        self.app("\t\tst := JumpI(st);\n");
        if targets.len() == 1 {
            self.app("\t\tif st.PC() == ");
            self.app_hex(targets[0]);
            self.app(" { st := block_");
            self.app_udec(self.id);
            self.app("_");
            self.app_hex_pad4(targets[0]);
            self.app("(st); return st;}\n");
            proof {
                assert(extends(mid, self.text())) by {
                    assert(self.text().subrange(0, mid.len() as int) =~= mid);
                }
                lemma_extends_trans(base, mid, self.text());
            }
        } else {
            self.app("\tmatch st.PC() {\n");
            proof {
                assert(extends(mid, self.text())) by {
                    assert(self.text().subrange(0, mid.len() as int) =~= mid);
                }
                lemma_extends_trans(base, mid, self.text());
            }
            let mut k: usize = 0;
            while k < targets.len()
                invariant
                    base == old(self).text(),
                    self.spec_id() == old(self).spec_id(),
                    extends(base, self.text()),
                    k <= targets@.len(),
                decreases targets@.len() - k,
            {
                let ghost pre = self.text();
                self.app("\t\tcase ");
                self.app_hex(targets[k]);
                self.app(" => { st := block_");
                self.app_udec(self.id);
                self.app("_");
                self.app_hex_pad4(targets[k]);
                self.app("(st); return st;}\n");
                proof {
                    assert(extends(pre, self.text())) by {
                        assert(self.text().subrange(0, pre.len() as int) =~= pre);
                    }
                    lemma_extends_trans(base, pre, self.text());
                }
                k += 1;
            }
            let ghost tail = self.text();
            self.app("\t\tcase _ => {}\n");
            self.app("\t}\n");
            proof {
                assert(extends(tail, self.text())) by {
                    assert(self.text().subrange(0, tail.len() as int) =~= tail);
                }
                lemma_extends_trans(base, tail, self.text());
            }
        }
    }

    fn print_jump_assumes(&mut self, targets: &Vec<usize>)
        ensures
            final(self).spec_id() == old(self).spec_id(),
            extends(old(self).text(), final(self).text()),
    {
        let ghost base = self.text();
        proof {
            assert(extends(base, self.text())) by {
                assert(self.text().subrange(0, base.len() as int) =~= base);
            }
        }
        let mut k: usize = 0;
        while k < targets.len()
            invariant
                base == old(self).text(),
                self.spec_id() == old(self).spec_id(),
                extends(base, self.text()),
                k <= targets@.len(),
            decreases targets@.len() - k,
        {
            let ghost pre = self.text();
            self.app("\t\tassume st.IsJumpDest(");
            self.app_hex(targets[k]);
            self.app(");\n");
            proof {
                assert(extends(pre, self.text())) by {
                    assert(self.text().subrange(0, pre.len() as int) =~= pre);
                }
                lemma_extends_trans(base, pre, self.text());
            }
            k += 1;
        }
    }

    fn print_call(&mut self)
        ensures
            final(self).spec_id() == old(self).spec_id(),
            extends(old(self).text(), final(self).text()),
    {
        let ghost base = self.text();
        self.app("\t\tvar CONTINUING(cc) := Call(st);\n");
        self.app("\t\t{\n");
        self.app("\t\t\tvar inner := cc.CallEnter(1);\n");
        self.app("\t\t\tif inner.EXECUTING? { inner := external_call(cc.sender,inner); }\n");
        self.app("\t\t\tst := cc.CallReturn(inner);\n");
        self.app("\t\t}\n");
        proof {
            assert(extends(base, self.text())) by {
                assert(self.text().subrange(0, base.len() as int) =~= base);
            }
        }
    }
}

} // verus!
