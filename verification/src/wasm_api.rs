use vstd::prelude::*;

use std::rc::Rc;

use crate::abstraction_graph::graph::{all_keyed, forest, graph_of, Graph};
use crate::name_resolution::resolve::{files_same_shape, files_standalone, ResolveError, Resolver};
use crate::name_resolution::resolve_types::package_type_names;
use crate::name_resolution::waiting::names_distinct;
use crate::parser::lexer::lex_all;
use crate::parser::parser::{
    at_most_one_public, file_spelled, public_empty_decl_tokens, public_then_plain_decl_tokens, single_empty_decl_tokens,
    token_or_eof, Parser,
};
use crate::parser::token::TokenView;
use crate::text::{ends_with, has_suffix};
use crate::types::{is_child_name, JavaFile, ParseErr, ParseErrType};

verus! {

/// Whether a path names a Java source file the builder reads: it ends in
/// `.java` and is neither `module-info.java` nor `package-info.java`.
pub open spec fn is_project_source(path: Seq<char>) -> bool {
    &&& has_suffix(path, ".java"@)
    &&& !has_suffix(path, "module-info.java"@)
    &&& !has_suffix(path, "package-info.java"@)
}

/// Whether the file at `path` is one the builder reads (see
/// [`is_project_source`]).
pub fn is_java_source(path: &str) -> (r: bool)
    ensures
        r == is_project_source(path@),
{
    ends_with(path, ".java") && !ends_with(path, "module-info.java") && !ends_with(path, "package-info.java")
}

/// Why the builder could not build a graph.
#[derive(Debug)]
pub enum BuildErr {
    /// Name resolution failed.
    Resolve(ResolveError),
    /// A resolved type has no single name to file its node under.
    UnnamedType,
}

/// Accumulates parsed Java files and builds an abstraction graph from them.
///
/// Each instance owns its own set of ASTs, so two builders never see each other's
/// files. Callers should `free()` an instance when done, or `clear()` it to reuse
/// it for another project.
pub struct ProjectBuilder {
    asts: Vec<Rc<JavaFile>>,
}

impl ProjectBuilder {
    /// The files added so far, in order.
    pub closed spec fn files(&self) -> Seq<Rc<JavaFile>> {
        self.asts@
    }

    /// A builder with no files.
    pub fn new() -> (r: Self)
        ensures
            r.files().len() == 0,
    {
        ProjectBuilder { asts: Vec::new() }
    }

    /// Parses one file into the builder.
    ///
    /// Paths that are not `.java`, or that name `module-info.java` /
    /// `package-info.java`, are skipped silently. Parse failures return an
    /// error and leave the builder as it was.
    pub fn add_file(&mut self, path: &str, src: &str) -> (r: Result<(), ParseErr>)
        requires
            src@.len() + 4 < usize::MAX,
        ensures
            !is_project_source(path@) ==> r is Ok && final(self).files() == old(self).files(),
            r is Err ==> final(self).files() == old(self).files(),
            is_project_source(path@) && r is Ok ==> final(self).files().len() == old(self).files().len() + 1
                && final(self).files().drop_last() == old(self).files() && final(self).files().last().file@
                == path@,
            is_project_source(path@) && lex_all(src@) is None ==> (r matches Err(e) && e.err
                == ParseErrType::LexerError),
            is_project_source(path@) && r is Ok ==> {
                let f = *final(self).files().last();
                &&& lex_all(src@) matches Some(ts) && exists|p: Parser| #[trigger] p.reads(ts) && file_spelled(p, f)
                &&& at_most_one_public(f.type_decls@)
                &&& forall|i: int|
                    0 <= i < f.type_decls@.len() ==> is_child_name(f.package_name@, (#[trigger] f.type_decls@[i]).name@)
            },
            is_project_source(path@) ==> (lex_all(src@) matches Some(ts) && public_empty_decl_tokens(ts, 0)
                && public_empty_decl_tokens(ts, 5) ==> (r matches Err(e) && e.err
                == ParseErrType::MultiplePublicTypesError)),
            is_project_source(path@) ==> (lex_all(src@) matches Some(ts) && token_or_eof(ts, 0) == TokenView::EOF
                ==> r is Ok && final(self).files().last().type_decls@.len() == 0),
            is_project_source(path@) ==> (lex_all(src@) matches Some(ts) && single_empty_decl_tokens(ts) ==> r is Ok
                && final(self).files().last().type_decls@.len() == 1),
            is_project_source(path@) ==> (lex_all(src@) matches Some(ts) && public_then_plain_decl_tokens(ts) ==> r is Ok
                && final(self).files().last().type_decls@.len() == 2),
    {
        if !is_java_source(path) {
            return Ok(());
        }
        let ast = Parser::parse(src, path)?;
        self.asts.push(Rc::new(ast));
        proof {
            assert(self.asts@.drop_last() =~= old(self).asts@);
        }
        Ok(())
    }

    /// Resolves names across every file added so far and returns the abstraction
    /// graph. Does not consume the builder — callers may add more files and rebuild.
    pub fn build_graph(&self) -> (r: Result<Graph, BuildErr>)
        ensures
            r matches Ok(g) ==> g.wf() && exists|trees: Seq<Rc<crate::resolved_types::FileTypeTree>>|
                {
                    &&& trees.len() == self.files().len()
                    &&& forall|i: int|
                        0 <= i < trees.len() ==> files_same_shape(*self.files()[i], *(#[trigger] trees[i]))
                    &&& #[trigger] graph_of(forest(trees)) == g@
                },
            r matches Err(BuildErr::Resolve(ResolveError::ReadProject(e))) ==> e is SemanticErr,
            (r matches Err(BuildErr::Resolve(ResolveError::ReadProject(_)))) <==> exists|pkg: Seq<Seq<char>>|
                !names_distinct(#[trigger] package_type_names(self.files(), pkg)),
            files_standalone(self.files()) && (forall|pkg: Seq<Seq<char>>| names_distinct(
                #[trigger] package_type_names(self.files(), pkg),
            )) ==> !(r matches Err(BuildErr::Resolve(_))),
            r matches Err(BuildErr::UnnamedType) ==> exists|trees: Seq<Rc<crate::resolved_types::FileTypeTree>>|
                {
                    &&& trees.len() == self.files().len()
                    &&& forall|i: int|
                        0 <= i < trees.len() ==> files_same_shape(*self.files()[i], *(#[trigger] trees[i]))
                    &&& !all_keyed(#[trigger] forest(trees))
                },
    {
        let asts = self.asts.as_slice();
        assert(asts@ == self.files());
        let trees = match Resolver::resolve(asts) {
            Ok(t) => t,
            Err(e) => {
                return Err(BuildErr::Resolve(e));
            },
        };
        if !Graph::all_named(&trees) {
            return Err(BuildErr::UnnamedType);
        }
        let g = Graph::from_trees(&trees);
        assert(graph_of(forest(trees@)) == g@);
        Ok(g)
    }

    /// Drops every file added so far, leaving the builder reusable.
    pub fn clear(&mut self)
        ensures
            final(self).files().len() == 0,
    {
        self.asts.clear();
    }

    /// The number of files added so far.
    pub fn file_count(&self) -> (r: usize)
        ensures
            r == self.files().len(),
    {
        self.asts.len()
    }
}

} // verus!
