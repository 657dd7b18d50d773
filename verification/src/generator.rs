use vstd::prelude::*;

use crate::render::{
    cjs_chunk_import_text, cjs_external_import_text, cjs_pieces, concat_all, esm_import_parts_ok, esm_pieces, render_cjs, render_esm, ImportsFromChunk, ImportsFromExternal, OutputFormat,
    RenderedModuleSource,
};
use crate::strings::{join_with, views};
use crate::types::ModuleIdx;

verus! {

/// One output file made from a chunk.
#[derive(Debug)]
pub struct InstantiatedChunk {
    pub content: String,
    pub preliminary_filename: String,
}

/// The files made from a chunk, and the warnings raised on the way.
#[derive(Debug)]
pub struct GenerateOutput {
    pub chunks: Vec<InstantiatedChunk>,
    pub warnings: Vec<String>,
}

/// What the generation of one chunk works from.
pub struct GenerateContext {
    pub format: OutputFormat,
    /// The modules of the chunk, in execution order.
    pub chunk_modules: Vec<ModuleIdx>,
    /// For each module of the table, whether it is bundled (not external).
    pub module_is_normal: Vec<bool>,
    /// The generated code of each module of the chunk, in the same order.
    pub module_id_to_codegen_ret: Vec<Option<String>>,
    pub runtime: ModuleIdx,
    /// Whether some module of the chunk is included and has code.
    pub has_renderable_modules: bool,
    pub imports_from_chunks: Vec<ImportsFromChunk>,
    pub imports_from_externals: Vec<ImportsFromExternal>,
    /// The name by which CommonJS output reaches the runtime's `__toESM`.
    pub to_esm_fn_name: String,
    /// The external modules that the chunk's entry module re-exports everything of.
    pub external_star_exports: Vec<String>,
    /// The chunk's export statement, if it has one.
    pub exports: Option<String>,
    pub preliminary_filename: Option<String>,
    pub warnings: Vec<String>,
}

/// The bundled modules of the chunk paired with their code (none when it is empty), for as
/// many modules as there is code.
pub open spec fn rendered_sources(
    chunk_modules: Seq<ModuleIdx>,
    module_is_normal: Seq<bool>,
    codegen: Seq<Option<String>>,
    n: int,
) -> Seq<RenderedModuleSource>
    decreases n,
{
    if n <= 0 {
        seq![]
    } else {
        let rest = rendered_sources(chunk_modules, module_is_normal, codegen, n - 1);
        let id = chunk_modules[n - 1];
        if module_is_normal[id as int] {
            let code = codegen[n - 1]->0;
            rest.push(
                RenderedModuleSource {
                    module_idx: id,
                    sources: if code@.len() == 0 {
                        None
                    } else {
                        Some(code)
                    },
                },
            )
        } else {
            rest
        }
    }
}

/// How many modules of the chunk come with code.
pub open spec fn codegen_count(ctx: GenerateContext) -> int {
    if ctx.chunk_modules.len() < ctx.module_id_to_codegen_ret.len() {
        ctx.chunk_modules.len() as int
    } else {
        ctx.module_id_to_codegen_ret.len() as int
    }
}

/// `content` is the chunk of `ctx` laid out for its output format.
pub open spec fn chunk_content_ok(ctx: GenerateContext, content: Seq<char>) -> bool {
    let sources = rendered_sources(
        ctx.chunk_modules@,
        ctx.module_is_normal@,
        ctx.module_id_to_codegen_ret@,
        codegen_count(ctx),
    );
    match ctx.format {
        OutputFormat::Esm => exists|parts: Seq<Seq<char>>|
            #[trigger] esm_import_parts_ok(ctx.imports_from_chunks@, ctx.imports_from_externals@, parts) && content
                == join_with(esm_pieces(concat_all(parts), views(ctx.external_star_exports@), sources, ctx.exports), "\n"@),
        OutputFormat::Cjs => content == join_with(
            cjs_pieces(
                ctx.has_renderable_modules,
                ctx.runtime,
                sources,
                concat_all(
                    Seq::new(ctx.imports_from_chunks.len() as nat, |i: int| cjs_chunk_import_text(ctx.imports_from_chunks[i]))
                        + Seq::new(
                        ctx.imports_from_externals.len() as nat,
                        |i: int| cjs_external_import_text(ctx.imports_from_externals[i], ctx.to_esm_fn_name@),
                    ),
                ),
                ctx.exports,
            ),
            "\n"@,
        ),
    }
}

/// Generates the code of ECMAScript chunks.
pub struct EcmaGenerator;

impl EcmaGenerator {
    /// Renders a chunk into one file: the code of its modules laid out for the output
    /// format, with the chunk's imports and exports.
    pub fn instantiate_chunk(ctx: &mut GenerateContext) -> (r: Result<GenerateOutput, Vec<String>>)
        requires
            old(ctx).preliminary_filename is Some,
            forall|i: int|
                0 <= i < old(ctx).chunk_modules.len() && i < old(ctx).module_id_to_codegen_ret.len() ==> (
                #[trigger] old(ctx).chunk_modules[i]) < old(ctx).module_is_normal.len(),
            forall|i: int|
                0 <= i < old(ctx).chunk_modules.len() && i < old(ctx).module_id_to_codegen_ret.len()
                    && old(ctx).module_is_normal[old(ctx).chunk_modules[i] as int]
                    ==> (#[trigger] old(ctx).module_id_to_codegen_ret[i]) is Some,
        ensures
            r is Ok,
            final(ctx).warnings@.len() == 0,
            final(ctx).module_id_to_codegen_ret@.len() == 0,
            r matches Ok(out) && out.warnings@ == old(ctx).warnings@ && out.chunks.len() == 1
                && out.chunks[0].preliminary_filename == old(ctx).preliminary_filename->0 && chunk_content_ok(
                *old(ctx),
                out.chunks[0].content@,
            ),
    {
        let ghost ctx0 = *ctx;
        let mut codegen: Vec<Option<String>> = Vec::new();
        std::mem::swap(&mut codegen, &mut ctx.module_id_to_codegen_ret);
        let ghost cg = codegen@;
        let n = if ctx.chunk_modules.len() < codegen.len() {
            ctx.chunk_modules.len()
        } else {
            codegen.len()
        };
        let mut rendered: Vec<RenderedModuleSource> = Vec::new();
        let mut i: usize = 0;
        while i < n
            invariant
                n <= ctx.chunk_modules.len(),
                n <= cg.len(),
                codegen@ == cg,
                i <= n,
                forall|k: int| 0 <= k < n ==> (#[trigger] ctx.chunk_modules[k]) < ctx.module_is_normal.len(),
                forall|k: int|
                    0 <= k < n && ctx.module_is_normal[ctx.chunk_modules[k] as int] ==> (#[trigger] cg[k]) is Some,
                rendered@ == rendered_sources(ctx.chunk_modules@, ctx.module_is_normal@, cg, i as int),
            decreases n - i,
        {
            let id = ctx.chunk_modules[i];
            if ctx.module_is_normal[id] {
                let code = match &codegen[i] {
                    Some(c) => c.clone(),
                    None => String::new(),
                };
                let sources = if code.as_str().unicode_len() == 0 {
                    None
                } else {
                    Some(code)
                };
                rendered.push(RenderedModuleSource::new(id, sources));
            }
            i += 1;
        }
        let joiner = match ctx.format {
            OutputFormat::Esm => render_esm(
                &ctx.imports_from_chunks,
                &ctx.imports_from_externals,
                &ctx.external_star_exports,
                &rendered,
                &ctx.exports,
            ),
            OutputFormat::Cjs => render_cjs(
                ctx.has_renderable_modules,
                ctx.runtime,
                &rendered,
                &ctx.imports_from_chunks,
                &ctx.imports_from_externals,
                &ctx.to_esm_fn_name,
                &ctx.exports,
            ),
        };
        let content = joiner.join();
        proof {
            if ctx.format == OutputFormat::Esm {
                let parts = choose|parts: Seq<Seq<char>>|
                    #[trigger] esm_import_parts_ok(ctx.imports_from_chunks@, ctx.imports_from_externals@, parts) && views(
                        joiner.sources@,
                    ) == esm_pieces(concat_all(parts), views(ctx.external_star_exports@), rendered@, ctx.exports);
                assert(esm_import_parts_ok(ctx0.imports_from_chunks@, ctx0.imports_from_externals@, parts));
            }
        }
        let preliminary_filename = match &ctx.preliminary_filename {
            Some(f) => f.clone(),
            None => String::new(),
        };
        let mut warnings: Vec<String> = Vec::new();
        std::mem::swap(&mut warnings, &mut ctx.warnings);
        let mut chunks: Vec<InstantiatedChunk> = Vec::new();
        chunks.push(InstantiatedChunk { content, preliminary_filename });
        proof {
            assert(rendered@ == rendered_sources(ctx0.chunk_modules@, ctx0.module_is_normal@, ctx0.module_id_to_codegen_ret@, codegen_count(ctx0)));
            assert(chunk_content_ok(ctx0, chunks[0].content@));
        }
        Ok(GenerateOutput { chunks, warnings })
    }
}


/// The modules among the first `n` of a chunk that get rendered: bundled, included, and
/// with a non-empty program, in chunk order.
pub open spec fn renderable_modules(
    chunk_modules: Seq<ModuleIdx>,
    module_is_normal: Seq<bool>,
    is_included: Seq<bool>,
    program_is_empty: Seq<bool>,
    n: int,
) -> Seq<ModuleIdx>
    decreases n,
{
    if n <= 0 {
        seq![]
    } else {
        let rest = renderable_modules(chunk_modules, module_is_normal, is_included, program_is_empty, n - 1);
        let id = chunk_modules[n - 1] as int;
        if module_is_normal[id] && is_included[id] && !program_is_empty[id] {
            rest.push(chunk_modules[n - 1])
        } else {
            rest
        }
    }
}

/// The modules of a chunk that get rendered: the bundled ones that tree shaking kept and
/// whose program is not empty, in chunk order.
pub fn renderable_ecma_modules(
    chunk_modules: &Vec<ModuleIdx>,
    module_is_normal: &Vec<bool>,
    is_included: &Vec<bool>,
    program_is_empty: &Vec<bool>,
) -> (r: Vec<ModuleIdx>)
    requires
        is_included.len() == module_is_normal.len(),
        program_is_empty.len() == module_is_normal.len(),
        forall|i: int| 0 <= i < chunk_modules.len() ==> #[trigger] chunk_modules@[i] < module_is_normal.len(),
    ensures
        r@ == renderable_modules(
            chunk_modules@,
            module_is_normal@,
            is_included@,
            program_is_empty@,
            chunk_modules.len() as int,
        ),
{
    let mut r: Vec<ModuleIdx> = Vec::new();
    let mut i: usize = 0;
    while i < chunk_modules.len()
        invariant
            i <= chunk_modules.len(),
            is_included.len() == module_is_normal.len(),
            program_is_empty.len() == module_is_normal.len(),
            forall|q: int| 0 <= q < chunk_modules.len() ==> #[trigger] chunk_modules@[q] < module_is_normal.len(),
            r@ == renderable_modules(chunk_modules@, module_is_normal@, is_included@, program_is_empty@, i as int),
        decreases chunk_modules.len() - i,
    {
        let id = chunk_modules[i];
        if module_is_normal[id] && is_included[id] && !program_is_empty[id] {
            r.push(id);
        }
        i += 1;
    }
    r
}

} // verus!
