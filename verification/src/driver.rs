//! The generation pipeline: disassemble the contract, extend each
//! code section with virtual havocs, build its control-flow
//! information, register the designated roots, split the blocks into
//! groups, and render one header per code section plus one proof file
//! per group.

use vstd::prelude::*;
use crate::block::PrecheckPolicy;
use crate::bridge::RawSection;
use crate::cfg::ControlFlowGraph;
use crate::errors::Error;
use crate::groups::{group, BlockGroup, RootSpec};
use crate::hexutil::{byte_items, append_byte_hex, lemma_byte_items_push};
use crate::printer::{BlockPrinter, PrinterConfig};
use crate::render::{append_udec, spec_udec};

verus! {

/// The generator's settings.
pub struct Config {
    /// Prefix for generated file names (the input file's stem).
    pub prefix: String,
    /// Path to the downstream proof library, embedded in includes.
    pub devmdir: String,
    /// The precondition hook applied while building blocks.
    pub checks: PrecheckPolicy,
    /// Upper bound on the number of bytecodes per block.
    pub blocksize: usize,
    /// Show liveness marks in the per-state comments.
    pub debug: bool,
    /// Prune `requires` clauses to the necessary facts.
    pub minimise_requires: bool,
    /// Prune the per-state comments to the necessary facts.
    pub minimise_internal: bool,
}

/// One generated file.
pub struct OutFile {
    pub name: String,
    pub content: String,
}

/// The number of code sections in a disassembled contract.
pub open spec fn num_code(sections: Seq<RawSection>) -> int
    decreases sections.len(),
{
    if sections.len() == 0 {
        0
    } else {
        num_code(sections.drop_last()) + if sections.last() is Code {
            1int
        } else {
            0int
        }
    }
}

/// The raw bytes a section carries.
pub open spec fn section_bytes(s: RawSection) -> Seq<u8> {
    match s {
        RawSection::Code(_, bs) => bs@,
        RawSection::Data(bs) => bs@,
    }
}

/// The file name of one section header.
pub open spec fn header_name(prefix: Seq<char>, ci: int) -> Seq<char> {
    prefix + "_"@ + spec_udec(ci) + "_header.dfy"@
}

/// Whether the file set holds the header of section `ci`: the fixed
/// name, and exactly the header text over the section's bytes.
pub open spec fn has_header_for(
    out: Seq<OutFile>,
    prefix: Seq<char>,
    devmdir: Seq<char>,
    ci: int,
    bs: Seq<u8>,
) -> bool {
    exists|k: int|
        0 <= k < out.len() && (#[trigger] out[k]).name@ == header_name(prefix, ci)
            && out[k].content@ == header_text(devmdir, ci, bs)
}

/// The boilerplate closing every header: a dummy model of an external
/// call.
pub open spec fn external_call_text() -> Seq<char> {
    "\tmethod external_call(sender: u160, st: EvmState.ExecutingState) returns (r:EvmState.TerminatedState)\n"@
        + "\tensures r.RETURNS? ==> r.world.Exists(sender) {\n"@
        + "\t\treturn EvmState.ERROR(EvmState.INSUFFICIENT_GAS); // dummy\n"@ + "\t}\n"@
}

/// The full text of one section header: includes, ambient
/// declarations, the section's bytecode constant, and the external
/// call model.  The bytecode constant's items render the section's
/// raw bytes, so by the byte-list round trip they decode back to
/// exactly those bytes.
pub open spec fn header_text(devmdir: Seq<char>, id: int, bytes: Seq<u8>) -> Seq<char> {
    "include \""@ + devmdir + "/src/dafny/evm.dfy\"\n"@ + "include \""@ + devmdir
        + "/src/dafny/state.dfy\"\n"@ + "\n"@ + "module Header {\n"@ + "\timport opened Int\n"@
        + "\timport EvmState\n"@ + "\n"@ + "\ttype u256 = Int.u256\n"@
        + "\tconst MAX_U256 : nat := Int.MAX_U256\n"@ + "\n"@ + "\tconst BYTECODE_"@ + spec_udec(
        id,
    ) + " : seq<u8> := [\n\t\t"@ + byte_items(bytes) + "\n\t]\n"@ + external_call_text() + "}\n"@
}

/// Render one section header.
pub fn header_file_content(devmdir: &String, id: usize, bytes: &Vec<u8>) -> (r: String)
    ensures
        r@ == header_text(devmdir@, id as int, bytes@),
{
    let mut s = String::new();
    s.append("include \"");
    let d: &str = devmdir;
    s.append(d);
    s.append("/src/dafny/evm.dfy\"\n");
    s.append("include \"");
    s.append(d);
    s.append("/src/dafny/state.dfy\"\n");
    s.append("\n");
    s.append("module Header {\n");
    s.append("\timport opened Int\n");
    s.append("\timport EvmState\n");
    s.append("\n");
    s.append("\ttype u256 = Int.u256\n");
    s.append("\tconst MAX_U256 : nat := Int.MAX_U256\n");
    s.append("\n");
    s.append("\tconst BYTECODE_");
    append_udec(&mut s, id);
    s.append(" : seq<u8> := [\n\t\t");
    let ghost base = s@;
    let mut k: usize = 0;
    while k < bytes.len()
        invariant
            k <= bytes@.len(),
            s@ == base + byte_items(bytes@.take(k as int)),
        decreases bytes@.len() - k,
    {
        let ghost pre = s@;
        if k != 0 {
            s.append(", ");
        }
        append_byte_hex(&mut s, bytes[k]);
        proof {
            lemma_byte_items_push(bytes@.take(k as int), bytes@[k as int]);
            assert(bytes@.take(k + 1) =~= bytes@.take(k as int).push(bytes@[k as int]));
            if k == 0 {
                assert(s@ =~= base + byte_items(bytes@.take(k + 1)));
            } else {
                assert(byte_items(seq![bytes@[k as int]]) =~= "0x"@ + crate::hexutil::byte_chars(
                    bytes@[k as int] as int,
                ));
                assert(s@ =~= base + byte_items(bytes@.take(k + 1)));
            }
        }
        k += 1;
    }
    proof {
        assert(bytes@.take(bytes@.len() as int) =~= bytes@);
    }
    s.append("\n\t]\n");
    s.append(
        "\tmethod external_call(sender: u160, st: EvmState.ExecutingState) returns (r:EvmState.TerminatedState)\n",
    );
    s.append("\tensures r.RETURNS? ==> r.world.Exists(sender) {\n");
    s.append("\t\treturn EvmState.ERROR(EvmState.INSUFFICIENT_GAS); // dummy\n");
    s.append("\t}\n");
    s.append("}\n");
    proof {
        assert(s@ =~= header_text(devmdir@, id as int, bytes@));
    }
    s
}

/// The include lines for a group's dependencies (an index beyond the
/// group list yields nothing).
pub open spec fn dep_include_lines(
    prefix: Seq<char>,
    id: int,
    deps: Seq<usize>,
    groups: Seq<BlockGroup>,
) -> Seq<char>
    decreases deps.len(),
{
    if deps.len() == 0 {
        Seq::empty()
    } else {
        dep_include_lines(prefix, id, deps.drop_last(), groups) + if (deps.last() as int)
            < groups.len() {
            "include \""@ + prefix + "_"@ + spec_udec(id) + "_"@ + groups[
                deps.last() as int
            ].name@ + ".dfy\"\n"@
        } else {
            Seq::empty()
        }
    }
}

/// The import lines for a group's dependencies.
pub open spec fn dep_import_lines(deps: Seq<usize>, groups: Seq<BlockGroup>) -> Seq<char>
    decreases deps.len(),
{
    if deps.len() == 0 {
        Seq::empty()
    } else {
        dep_import_lines(deps.drop_last(), groups) + if (deps.last() as int) < groups.len() {
            "\timport opened "@ + groups[deps.last() as int].name@ + "\n"@
        } else {
            Seq::empty()
        }
    }
}

/// The fixed opening of a group's proof file: the include lines, the
/// module header and its imports.
pub open spec fn group_prologue(
    prefix: Seq<char>,
    devmdir: Seq<char>,
    id: int,
    name: Seq<char>,
    deps: Seq<usize>,
    groups: Seq<BlockGroup>,
) -> Seq<char> {
    "include \""@ + devmdir + "/src/dafny/evm.dfy\"\n"@ + "include \""@ + devmdir
        + "/src/dafny/core/code.dfy\"\n"@ + "include \""@ + prefix + "_"@ + spec_udec(id)
        + "_header.dfy\"\n"@ + dep_include_lines(prefix, id, deps, groups) + "\n"@ + "module "@
        + name + " {\n"@ + "\timport opened Opcode\n"@ + "\timport opened Code\n"@
        + "\timport opened Memory\n"@ + "\timport opened Bytecode\n"@
        + "\timport opened Header\n"@ + dep_import_lines(deps, groups) + "\n"@
}

/// Render one group's proof file: the include lines, the module
/// wrapper with its imports, and one method per block.  The content
/// is the pinned prologue, then the rendered blocks — each opening
/// with its pinned method header — then the closing brace.
pub fn group_file_content(config: &Config, gidx: usize, groups: &Vec<BlockGroup>) -> (r: String)
    requires
        gidx < groups@.len(),
        forall|g: int, k: int|
            0 <= g < groups@.len() && 0 <= k < (#[trigger] groups@[g]).blocks@.len()
                ==> crate::block::block_wf(#[trigger] groups@[g].blocks@[k]),
    ensures
        exists|body: Seq<char>|
            r@ == group_prologue(
                config.prefix@,
                config.devmdir@,
                groups@[gidx as int].id as int,
                groups@[gidx as int].name@,
                groups@[gidx as int].deps@,
                groups@,
            ) + body + "}\n"@,
        forall|b: int|
            0 <= b < groups@[gidx as int].blocks@.len() ==> crate::printer::contains_text(
                r@,
                crate::printer::method_header_text(
                    groups@[gidx as int].id as int,
                    (#[trigger] groups@[gidx as int].blocks@[b]).spec_pc() as int,
                ),
            ),
{
    let g = &groups[gidx];
    let mut s = String::new();
    let d: &str = &config.devmdir;
    let p: &str = &config.prefix;
    s.append("include \"");
    s.append(d);
    s.append("/src/dafny/evm.dfy\"\n");
    s.append("include \"");
    s.append(d);
    s.append("/src/dafny/core/code.dfy\"\n");
    s.append("include \"");
    s.append(p);
    s.append("_");
    append_udec(&mut s, g.id);
    s.append("_header.dfy\"\n");
    let ghost inc_base = s@;
    let mut di: usize = 0;
    while di < g.deps.len()
        invariant
            gidx < groups@.len(),
            di <= groups@[gidx as int].deps@.len(),
            g.deps@ == groups@[gidx as int].deps@,
            g.id == groups@[gidx as int].id,
            p@ == config.prefix@,
            s@ == inc_base + dep_include_lines(
                config.prefix@,
                g.id as int,
                g.deps@.take(di as int),
                groups@,
            ),
        decreases g.deps@.len() - di,
    {
        proof {
            assert(g.deps@.take(di + 1).drop_last() =~= g.deps@.take(di as int));
            assert(g.deps@.take(di + 1).last() == g.deps@[di as int]);
        }
        let dep = g.deps[di];
        if dep < groups.len() {
            s.append("include \"");
            s.append(p);
            s.append("_");
            append_udec(&mut s, g.id);
            s.append("_");
            let dn: &str = &groups[dep].name;
            s.append(dn);
            s.append(".dfy\"\n");
            proof {
                assert(s@ =~= inc_base + dep_include_lines(
                    config.prefix@,
                    g.id as int,
                    g.deps@.take(di + 1),
                    groups@,
                ));
            }
        } else {
            proof {
                assert(s@ =~= inc_base + dep_include_lines(
                    config.prefix@,
                    g.id as int,
                    g.deps@.take(di + 1),
                    groups@,
                ));
            }
        }
        di += 1;
    }
    proof {
        assert(g.deps@.take(g.deps@.len() as int) =~= g.deps@);
    }
    s.append("\n");
    s.append("module ");
    let gn: &str = &g.name;
    s.append(gn);
    s.append(" {\n");
    s.append("\timport opened Opcode\n");
    s.append("\timport opened Code\n");
    s.append("\timport opened Memory\n");
    s.append("\timport opened Bytecode\n");
    s.append("\timport opened Header\n");
    let ghost imp_base = s@;
    let mut di2: usize = 0;
    while di2 < g.deps.len()
        invariant
            gidx < groups@.len(),
            di2 <= groups@[gidx as int].deps@.len(),
            g.deps@ == groups@[gidx as int].deps@,
            s@ == imp_base + dep_import_lines(g.deps@.take(di2 as int), groups@),
        decreases g.deps@.len() - di2,
    {
        proof {
            assert(g.deps@.take(di2 + 1).drop_last() =~= g.deps@.take(di2 as int));
            assert(g.deps@.take(di2 + 1).last() == g.deps@[di2 as int]);
        }
        let dep = g.deps[di2];
        if dep < groups.len() {
            s.append("\timport opened ");
            let dn: &str = &groups[dep].name;
            s.append(dn);
            s.append("\n");
            proof {
                assert(s@ =~= imp_base + dep_import_lines(g.deps@.take(di2 + 1), groups@));
            }
        } else {
            proof {
                assert(s@ =~= imp_base + dep_import_lines(g.deps@.take(di2 + 1), groups@));
            }
        }
        di2 += 1;
    }
    proof {
        assert(g.deps@.take(g.deps@.len() as int) =~= g.deps@);
    }
    s.append("\n");
    proof {
        assert(s@ =~= group_prologue(
            config.prefix@,
            config.devmdir@,
            g.id as int,
            g.name@,
            g.deps@,
            groups@,
        ));
    }
    let ghost prologue = s@;
    // Render every block of the group.
    let settings = PrinterConfig {
        debug: config.debug,
        minimise_requires: config.minimise_requires,
        minimise_internal: config.minimise_internal,
    };
    let mut printer = BlockPrinter::new(g.id, settings);
    let mut b: usize = 0;
    while b < g.blocks.len()
        invariant
            gidx < groups@.len(),
            b <= groups@[gidx as int].blocks@.len(),
            g.blocks@ == groups@[gidx as int].blocks@,
            g.id == groups@[gidx as int].id,
            printer.spec_id() == g.id,
            forall|k: int|
                0 <= k < groups@[gidx as int].blocks@.len() ==> crate::block::block_wf(
                    #[trigger] groups@[gidx as int].blocks@[k],
                ),
            forall|b2: int|
                0 <= b2 < b ==> crate::printer::contains_text(
                    printer.text(),
                    crate::printer::method_header_text(
                        g.id as int,
                        (#[trigger] g.blocks@[b2]).spec_pc() as int,
                    ),
                ),
        decreases g.blocks@.len() - b,
    {
        let ghost pre = printer.text();
        printer.print_block(&g.blocks[b]);
        proof {
            let hdr = crate::printer::method_header_text(
                g.id as int,
                g.blocks@[b as int].spec_pc() as int,
            );
            crate::printer::lemma_contains_at(printer.text(), pre.len() as int, hdr);
            assert forall|b2: int|
                0 <= b2 < b + 1 implies crate::printer::contains_text(
                printer.text(),
                crate::printer::method_header_text(
                    g.id as int,
                    (#[trigger] g.blocks@[b2]).spec_pc() as int,
                ),
            ) by {
                if b2 < b {
                    crate::printer::lemma_contains_extends(
                        pre,
                        printer.text(),
                        crate::printer::method_header_text(
                            g.id as int,
                            g.blocks@[b2].spec_pc() as int,
                        ),
                    );
                }
            }
        }
        b += 1;
    }
    let body = printer.into_string();
    let ghost body_text = body@;
    let bs: &str = &body;
    s.append(bs);
    s.append("}\n");
    proof {
        assert(s@ =~= prologue + body_text + "}\n"@);
        assert forall|b2: int|
            0 <= b2 < groups@[gidx as int].blocks@.len() implies crate::printer::contains_text(
            s@,
            crate::printer::method_header_text(
                groups@[gidx as int].id as int,
                (#[trigger] groups@[gidx as int].blocks@[b2]).spec_pc() as int,
            ),
        ) by {
            crate::printer::lemma_contains_embed(
                prologue,
                body_text,
                "}\n"@,
                crate::printer::method_header_text(
                    groups@[gidx as int].id as int,
                    groups@[gidx as int].blocks@[b2].spec_pc() as int,
                ),
            );
        }
    }
    s
}

/// Build a control-flow graph for every code section of the
/// disassembled contract.  The boolean reports whether every
/// underlying analysis completed within its limit.
pub fn deconstruct(sections: &Vec<RawSection>, config: &Config, limit: usize) -> (r: Result<
    (Vec<ControlFlowGraph>, bool),
    Error,
>)
    ensures
        r matches Err(e) ==> (e is Oversized || e is Unsupported || e is UnresolvedBranch
            || e is MissingBlock || e is FixpointOverrun),
        r matches Ok(p) ==> {
            &&& forall|c: int| 0 <= c < p.0@.len() ==> (#[trigger] p.0@[c]).wf()
            &&& p.0@.len() == num_code(sections@)
            &&& forall|c: int|
                0 <= c < p.0@.len() ==> (#[trigger] p.0@[c]).spec_cid() < sections@.len()
                    && sections@[p.0@[c].spec_cid() as int] is Code
            &&& forall|c1: int, c2: int|
                0 <= c1 < c2 < p.0@.len() ==> (#[trigger] p.0@[c1]).spec_cid() < (
                #[trigger] p.0@[c2]).spec_cid()
        },
{
    let mut cfgs: Vec<ControlFlowGraph> = Vec::new();
    let mut ok = true;
    let mut i: usize = 0;
    while i < sections.len()
        invariant
            i <= sections@.len(),
            forall|c: int| 0 <= c < cfgs@.len() ==> (#[trigger] cfgs@[c]).wf(),
            cfgs@.len() == num_code(sections@.take(i as int)),
            forall|c: int|
                0 <= c < cfgs@.len() ==> (#[trigger] cfgs@[c]).spec_cid() < i
                    && sections@[cfgs@[c].spec_cid() as int] is Code,
            forall|c1: int, c2: int|
                0 <= c1 < c2 < cfgs@.len() ==> (#[trigger] cfgs@[c1]).spec_cid() < (
                #[trigger] cfgs@[c2]).spec_cid(),
        decreases sections@.len() - i,
    {
        proof {
            assert(sections@.take(i + 1).drop_last() =~= sections@.take(i as int));
            assert(sections@.take(i + 1).last() == sections@[i as int]);
        }
        match &sections[i] {
            RawSection::Code(insns, _bytes) => {
                // Infer havoc instructions for this section.
                let (havoced, complete) = crate::bridge::insert_havoc_insns(insns.clone(), limit);
                let (cfg, c2) = match ControlFlowGraph::new(
                    i,
                    config.blocksize,
                    &havoced,
                    config.checks,
                    limit,
                ) {
                    Ok(p) => p,
                    Err(e) => {
                        return Err(e);
                    },
                };
                if !complete || !c2 {
                    ok = false;
                }
                cfgs.push(cfg);
            },
            RawSection::Data(_) => {},
        }
        i += 1;
    }
    proof {
        assert(sections@.take(sections@.len() as int) =~= sections@);
    }
    Ok((cfgs, ok))
}

/// Generate the proof-skeleton files for a disassembled contract:
/// one header per code section (its name and content pinned below)
/// and one file per block group.  The boolean reports whether every
/// underlying analysis completed within its limit; partial
/// control-flow information is tolerated, so ownership may then be
/// conservative.
pub fn generate_from_sections(
    sections: &Vec<RawSection>,
    config: &Config,
    roots: &Vec<RootSpec>,
    limit: usize,
) -> (r: Result<(Vec<OutFile>, bool), Error>)
    ensures
        r matches Ok(p) ==> forall|ci: int|
            0 <= ci < sections@.len() && (#[trigger] sections@[ci]) is Code ==> has_header_for(
                p.0@,
                config.prefix@,
                config.devmdir@,
                ci,
                section_bytes(sections@[ci]),
            ),
        r is Ok ==> forall|k: int|
            0 <= k < roots@.len() ==> (#[trigger] roots@[k]).cid < num_code(sections@),
        (r matches Err(e) && e is InvalidRoot) ==> exists|k: int|
            0 <= k < roots@.len() && (#[trigger] roots@[k]).cid >= num_code(sections@),
{
    let (mut cfgs, ok) = match deconstruct(sections, config, limit) {
        Ok(p) => p,
        Err(e) => {
            return Err(e);
        },
    };
    // Register the designated roots; each names a control-flow graph
    // by position.
    let mut k: usize = 0;
    while k < roots.len()
        invariant
            k <= roots@.len(),
            cfgs@.len() == num_code(sections@),
            forall|k2: int|
                0 <= k2 < k ==> (#[trigger] roots@[k2]).cid < num_code(sections@),
            forall|c: int| 0 <= c < cfgs@.len() ==> (#[trigger] cfgs@[c]).wf(),
        decreases roots@.len() - k,
    {
        let cid = roots[k].cid;
        if cid >= cfgs.len() {
            proof {
                assert(roots@[k as int].cid >= num_code(sections@));
            }
            return Err(Error::InvalidRoot(roots[k].pc));
        }
        let ghost pre = cfgs@;
        let pc = roots[k].pc;
        let c = &mut cfgs[cid];
        c.add_root(pc);
        proof {
            assert forall|c2: int| 0 <= c2 < cfgs@.len() implies (#[trigger] cfgs@[c2]).wf() by {
                if c2 != cid {
                    assert(cfgs@[c2] == pre[c2]);
                }
            }
        }
        k += 1;
    }
    // Split the blocks of every section into groups.
    let gs = group(roots, &cfgs);
    let mut out: Vec<OutFile> = Vec::new();
    // One header per code section, holding its bytecode constant.
    let mut i: usize = 0;
    while i < sections.len()
        invariant
            i <= sections@.len(),
            forall|ci: int|
                0 <= ci < i && (#[trigger] sections@[ci]) is Code ==> has_header_for(
                    out@,
                    config.prefix@,
                    config.devmdir@,
                    ci,
                    section_bytes(sections@[ci]),
                ),
        decreases sections@.len() - i,
    {
        let ghost pre_out = out@;
        match &sections[i] {
            RawSection::Code(_insns, secbytes) => {
                let mut name = config.prefix.clone();
                name.append("_");
                crate::render::append_udec(&mut name, i);
                name.append("_header.dfy");
                proof {
                    assert(name@ =~= header_name(config.prefix@, i as int));
                }
                let content = header_file_content(&config.devmdir, i, secbytes);
                out.push(OutFile { name, content });
                proof {
                    assert(out@[pre_out.len() as int].name@ == header_name(
                        config.prefix@,
                        i as int,
                    ));
                    assert(out@[pre_out.len() as int].content@ == header_text(
                        config.devmdir@,
                        i as int,
                        section_bytes(sections@[i as int]),
                    ));
                }
            },
            RawSection::Data(_) => {},
        }
        proof {
            assert forall|ci: int|
                0 <= ci < i + 1 && (#[trigger] sections@[ci]) is Code implies has_header_for(
                out@,
                config.prefix@,
                config.devmdir@,
                ci,
                section_bytes(sections@[ci]),
            ) by {
                if ci < i {
                    let k2 = choose|k2: int|
                        0 <= k2 < pre_out.len() && (#[trigger] pre_out[k2]).name@ == header_name(
                            config.prefix@,
                            ci,
                        ) && pre_out[k2].content@ == header_text(
                            config.devmdir@,
                            ci,
                            section_bytes(sections@[ci]),
                        );
                    assert(out@[k2] == pre_out[k2]);
                }
            }
        }
        i += 1;
    }
    // One file per group.
    let mut gi: usize = 0;
    while gi < gs.len()
        invariant
            gi <= gs@.len(),
            forall|g: int, k2: int|
                0 <= g < gs@.len() && 0 <= k2 < (#[trigger] gs@[g]).blocks@.len()
                    ==> crate::block::block_wf(#[trigger] gs@[g].blocks@[k2]),
            forall|ci: int|
                0 <= ci < sections@.len() && (#[trigger] sections@[ci]) is Code
                    ==> has_header_for(
                    out@,
                    config.prefix@,
                    config.devmdir@,
                    ci,
                    section_bytes(sections@[ci]),
                ),
        decreases gs@.len() - gi,
    {
        let ghost pre_out = out@;
        let g = &gs[gi];
        let mut name = config.prefix.clone();
        name.append("_");
        crate::render::append_udec(&mut name, g.id);
        name.append("_");
        let gn: &str = &g.name;
        name.append(gn);
        name.append(".dfy");
        let content = group_file_content(config, gi, &gs);
        out.push(OutFile { name, content });
        proof {
            assert forall|ci: int|
                0 <= ci < sections@.len() && (#[trigger] sections@[ci]) is Code
                    implies has_header_for(
                out@,
                config.prefix@,
                config.devmdir@,
                ci,
                section_bytes(sections@[ci]),
            ) by {
                let k2 = choose|k2: int|
                    0 <= k2 < pre_out.len() && (#[trigger] pre_out[k2]).name@ == header_name(
                        config.prefix@,
                        ci,
                    ) && pre_out[k2].content@ == header_text(
                        config.devmdir@,
                        ci,
                        section_bytes(sections@[ci]),
                    );
                assert(out@[k2] == pre_out[k2]);
            }
        }
        gi += 1;
    }
    Ok((out, ok))
}

/// Generate the proof-skeleton files for a contract's raw bytes.  The
/// disassembler's output is unconstrained, so everything this call
/// guarantees about the files lives on `generate_from_sections`,
/// which does the work on the disassembled sections.  An indirect
/// branch whose target the abstract trace cannot resolve is a hard
/// error: the policy here is to stop rather than emit an
/// unsatisfiable block, and the external trace enforces it by
/// aborting before this pipeline can report `UnresolvedBranch` itself
/// (see the boundary items' caution notes).
pub fn generate(bytes: &[u8], config: &Config, roots: &Vec<RootSpec>, limit: usize) -> (r: Result<
    (Vec<OutFile>, bool),
    Error,
>) {
    let sections = crate::bridge::disassemble(bytes);
    generate_from_sections(&sections, config, roots, limit)
}

} // verus!