//! The order that the contents of fact packs are held in.

use super::AnalysisDiagnostic;
use crate::catalog::order::callable_order;
use crate::external::{ExternalCallable, ExternalCatalog};
use crate::fact_pack::manifest::FactPackManifest;
use crate::facts::{
    lemma_span_order_consistent, settled, span_order, CallEdgeEvidence, CallEffectCatalog,
    CallEffectEvidence, CallEffects, DerivedLibraryBehavior, DerivedMacroBehavior, Effect,
    ImplementationEvidence, MacroBehavior, StringCase,
};
use crate::normalize::form::form_term;
use crate::normalize::order::term_order;
use crate::normalize::totality::law_forms_are_in_a_total_order;
use crate::ordering::Ordered;
use crate::paths::{components, lemma_path_order_consistent, path_compared, path_order};
use crate::sorting::{
    lemma_list_order_consistent, list_compared, list_order, list_triangle, Sortable,
};
use crate::text::{
    compared, lemma_settled_agrees, lemma_text_order_consistent, number_order, number_triangle,
    settled_by, settled_triangle, text_compared, text_order, text_triangle, Comparison,
};
use vstd::prelude::*;

verus! {

impl Sortable for FactPackManifest {
    open spec fn sort_order(&self, other: &FactPackManifest) -> Comparison {
        settled_by(
            text_order(self.name@, other.name@),
            settled_by(
                text_order(self.subject.version@, other.subject.version@),
                number_order(self.revision as int, other.revision as int),
            ),
        )
    }

    proof fn sorts_consistently(
        first: FactPackManifest,
        second: FactPackManifest,
        third: FactPackManifest,
    ) {
        lemma_text_order_consistent(first.name@, second.name@, third.name@);
        lemma_text_order_consistent(
            first.subject.version@,
            second.subject.version@,
            third.subject.version@,
        );
    }

    fn compared_to(&self, other: &FactPackManifest) -> (order: Comparison) {
        settled(
            text_compared(self.name.as_str(), other.name.as_str()),
            settled(
                text_compared(self.subject.version.as_str(), other.subject.version.as_str()),
                compared(self.revision, other.revision),
            ),
        )
    }
}

impl Sortable for ExternalCallable {
    open spec fn sort_order(&self, other: &ExternalCallable) -> Comparison {
        callable_order(self@, other@)
    }

    proof fn sorts_consistently(
        first: ExternalCallable,
        second: ExternalCallable,
        third: ExternalCallable,
    ) {
        ExternalCallable::order_is_total(first@, second@, third@);
        ExternalCallable::order_is_total(second@, third@, first@);
        ExternalCallable::order_is_total(third@, first@, second@);
        ExternalCallable::order_is_total(second@, first@, third@);
        ExternalCallable::order_is_total(first@, third@, second@);
    }

    fn compared_to(&self, other: &ExternalCallable) -> (order: Comparison) {
        self.ordered(other)
    }
}

impl Sortable for ExternalCatalog {
    open spec fn sort_order(&self, other: &ExternalCatalog) -> Comparison {
        settled_by(
            number_order(self.schema as int, other.schema as int),
            settled_by(
                text_order(self.package@, other.package@),
                settled_by(
                    text_order(self.version@, other.version@),
                    settled_by(
                        number_order(self.rustdoc_format as int, other.rustdoc_format as int),
                        settled_by(
                            text_order(self.source_sha256@, other.source_sha256@),
                            list_order(self.callables@, other.callables@),
                        ),
                    ),
                ),
            ),
        )
    }

    #[verifier::rlimit(30)]
    #[verifier::spinoff_prover]
    proof fn sorts_consistently(
        first: ExternalCatalog,
        second: ExternalCatalog,
        third: ExternalCatalog,
    ) {
        let schemas = number_triangle(
            first.schema as int,
            second.schema as int,
            third.schema as int,
        );
        let packages = text_triangle(first.package@, second.package@, third.package@);
        let versions = text_triangle(first.version@, second.version@, third.version@);
        let formats = number_triangle(
            first.rustdoc_format as int,
            second.rustdoc_format as int,
            third.rustdoc_format as int,
        );
        let sources = text_triangle(
            first.source_sha256@,
            second.source_sha256@,
            third.source_sha256@,
        );
        let callables = list_triangle(first.callables@, second.callables@, third.callables@);
        lemma_text_order_consistent(first.package@, second.package@, third.package@);
        lemma_text_order_consistent(first.version@, second.version@, third.version@);
        lemma_text_order_consistent(
            first.source_sha256@,
            second.source_sha256@,
            third.source_sha256@,
        );
        lemma_list_order_consistent(first.callables@, second.callables@, third.callables@);
        let by_source = settled_triangle(sources, callables);
        lemma_settled_agrees(sources, callables);
        let by_format = settled_triangle(formats, by_source);
        lemma_settled_agrees(formats, by_source);
        let by_version = settled_triangle(versions, by_format);
        lemma_settled_agrees(versions, by_format);
        let by_package = settled_triangle(packages, by_version);
        lemma_settled_agrees(packages, by_version);
        lemma_settled_agrees(schemas, by_package);
    }

    fn compared_to(&self, other: &ExternalCatalog) -> (order: Comparison) {
        settled(
            compared(self.schema, other.schema),
            settled(
                text_compared(self.package.as_str(), other.package.as_str()),
                settled(
                    text_compared(self.version.as_str(), other.version.as_str()),
                    settled(
                        compared(self.rustdoc_format, other.rustdoc_format),
                        settled(
                            text_compared(
                                self.source_sha256.as_str(),
                                other.source_sha256.as_str(),
                            ),
                            list_compared(&self.callables, &other.callables),
                        ),
                    ),
                ),
            ),
        )
    }
}

impl Sortable for ImplementationEvidence {
    open spec fn sort_order(&self, other: &ImplementationEvidence) -> Comparison {
        settled_by(
            text_order(self.callable_path@, other.callable_path@),
            settled_by(
                span_order(self.span@, other.span@),
                text_order(self.source_sha256@, other.source_sha256@),
            ),
        )
    }

    proof fn sorts_consistently(
        first: ImplementationEvidence,
        second: ImplementationEvidence,
        third: ImplementationEvidence,
    ) {
        lemma_text_order_consistent(
            first.callable_path@,
            second.callable_path@,
            third.callable_path@,
        );
        lemma_span_order_consistent(first.span@, second.span@, third.span@);
        lemma_text_order_consistent(
            first.source_sha256@,
            second.source_sha256@,
            third.source_sha256@,
        );
    }

    fn compared_to(&self, other: &ImplementationEvidence) -> (order: Comparison) {
        settled(
            text_compared(self.callable_path.as_str(), other.callable_path.as_str()),
            settled(
                self.span.compared(&other.span),
                text_compared(self.source_sha256.as_str(), other.source_sha256.as_str()),
            ),
        )
    }
}

impl Sortable for DerivedLibraryBehavior {
    open spec fn sort_order(&self, other: &DerivedLibraryBehavior) -> Comparison {
        settled_by(
            number_order(self.schema as int, other.schema as int),
            settled_by(
                text_order(self.callable_package@, other.callable_package@),
                settled_by(
                    text_order(self.callable_version@, other.callable_version@),
                    settled_by(
                        text_order(self.callable_path@, other.callable_path@),
                        settled_by(
                            text_order(self.catalog_sha256@, other.catalog_sha256@),
                            settled_by(
                                list_order(self.implementation@, other.implementation@),
                                term_order(form_term(self.program), form_term(other.program)),
                            ),
                        ),
                    ),
                ),
            ),
        )
    }

    #[verifier::rlimit(60)]
    #[verifier::spinoff_prover]
    proof fn sorts_consistently(
        first: DerivedLibraryBehavior,
        second: DerivedLibraryBehavior,
        third: DerivedLibraryBehavior,
    ) {
        lemma_text_order_consistent(
            first.callable_package@,
            second.callable_package@,
            third.callable_package@,
        );
        lemma_text_order_consistent(
            first.callable_version@,
            second.callable_version@,
            third.callable_version@,
        );
        lemma_text_order_consistent(
            first.callable_path@,
            second.callable_path@,
            third.callable_path@,
        );
        lemma_text_order_consistent(
            first.catalog_sha256@,
            second.catalog_sha256@,
            third.catalog_sha256@,
        );
        lemma_list_order_consistent(
            first.implementation@,
            second.implementation@,
            third.implementation@,
        );
        law_forms_are_in_a_total_order(first.program, second.program, third.program);
    }

    fn compared_to(&self, other: &DerivedLibraryBehavior) -> (order: Comparison) {
        let last = settled(
            list_compared(&self.implementation, &other.implementation),
            self.program.compared(&other.program),
        );
        settled(
            compared(self.schema, other.schema),
            settled(
                text_compared(self.callable_package.as_str(), other.callable_package.as_str()),
                settled(
                    text_compared(self.callable_version.as_str(), other.callable_version.as_str()),
                    settled(
                        text_compared(self.callable_path.as_str(), other.callable_path.as_str()),
                        settled(
                            text_compared(
                                self.catalog_sha256.as_str(),
                                other.catalog_sha256.as_str(),
                            ),
                            last,
                        ),
                    ),
                ),
            ),
        )
    }
}

/// Where a spelling stands among all.
pub open spec fn case_rank(case: StringCase) -> u32 {
    match case {
        StringCase::Kebab => 0,
        StringCase::Snake => 1,
    }
}

/// Where what a macro generates stands among all.
pub open spec fn macro_rank(behavior: MacroBehavior) -> u32 {
    match behavior {
        MacroBehavior::EnumDisplay { case } => case_rank(case),
        MacroBehavior::EnumAsRefStr { case } => (2 + case_rank(case)) as u32,
        MacroBehavior::EnumVariantArray => 4,
    }
}

/// Where what a macro generates stands among all.
fn macro_number(behavior: MacroBehavior) -> (rank: u32)
    ensures
        rank == macro_rank(behavior),
{
    match behavior {
        MacroBehavior::EnumDisplay { case: StringCase::Kebab } => 0,
        MacroBehavior::EnumDisplay { case: StringCase::Snake } => 1,
        MacroBehavior::EnumAsRefStr { case: StringCase::Kebab } => 2,
        MacroBehavior::EnumAsRefStr { case: StringCase::Snake } => 3,
        MacroBehavior::EnumVariantArray => 4,
    }
}

impl Sortable for DerivedMacroBehavior {
    open spec fn sort_order(&self, other: &DerivedMacroBehavior) -> Comparison {
        settled_by(
            number_order(self.schema as int, other.schema as int),
            settled_by(
                text_order(self.macro_package@, other.macro_package@),
                settled_by(
                    text_order(self.macro_version@, other.macro_version@),
                    settled_by(
                        text_order(self.derive_path@, other.derive_path@),
                        settled_by(
                            text_order(self.probe_source_sha256@, other.probe_source_sha256@),
                            settled_by(
                                text_order(self.expansion_sha256@, other.expansion_sha256@),
                                number_order(
                                    macro_rank(self.behavior) as int,
                                    macro_rank(other.behavior) as int,
                                ),
                            ),
                        ),
                    ),
                ),
            ),
        )
    }

    #[verifier::rlimit(60)]
    #[verifier::spinoff_prover]
    proof fn sorts_consistently(
        first: DerivedMacroBehavior,
        second: DerivedMacroBehavior,
        third: DerivedMacroBehavior,
    ) {
        lemma_text_order_consistent(
            first.macro_package@,
            second.macro_package@,
            third.macro_package@,
        );
        lemma_text_order_consistent(
            first.macro_version@,
            second.macro_version@,
            third.macro_version@,
        );
        lemma_text_order_consistent(first.derive_path@, second.derive_path@, third.derive_path@);
        lemma_text_order_consistent(
            first.probe_source_sha256@,
            second.probe_source_sha256@,
            third.probe_source_sha256@,
        );
        lemma_text_order_consistent(
            first.expansion_sha256@,
            second.expansion_sha256@,
            third.expansion_sha256@,
        );
    }

    fn compared_to(&self, other: &DerivedMacroBehavior) -> (order: Comparison) {
        let last = settled(
            text_compared(self.expansion_sha256.as_str(), other.expansion_sha256.as_str()),
            compared(macro_number(self.behavior), macro_number(other.behavior)),
        );
        settled(
            compared(self.schema, other.schema),
            settled(
                text_compared(self.macro_package.as_str(), other.macro_package.as_str()),
                settled(
                    text_compared(self.macro_version.as_str(), other.macro_version.as_str()),
                    settled(
                        text_compared(self.derive_path.as_str(), other.derive_path.as_str()),
                        settled(
                            text_compared(
                                self.probe_source_sha256.as_str(),
                                other.probe_source_sha256.as_str(),
                            ),
                            last,
                        ),
                    ),
                ),
            ),
        )
    }
}

/// Where an effect stands among all.
pub open spec fn effect_rank(effect: Effect) -> u32 {
    match effect {
        Effect::Allocate => 0,
        Effect::Block => 1,
        Effect::EnvironmentRead => 2,
        Effect::EnvironmentWrite => 3,
        Effect::FileRead => 4,
        Effect::FileWrite => 5,
        Effect::Network => 6,
        Effect::Process => 7,
        Effect::Random => 8,
        Effect::Time => 9,
        Effect::Unsafe => 10,
    }
}

impl Sortable for Effect {
    open spec fn sort_order(&self, other: &Effect) -> Comparison {
        number_order(effect_rank(*self) as int, effect_rank(*other) as int)
    }

    proof fn sorts_consistently(first: Effect, second: Effect, third: Effect) {
    }

    fn compared_to(&self, other: &Effect) -> (order: Comparison) {
        compared(effect_number(*self), effect_number(*other))
    }
}

/// Where an effect stands among all.
fn effect_number(effect: Effect) -> (rank: u32)
    ensures
        rank == effect_rank(effect),
{
    match effect {
        Effect::Allocate => 0,
        Effect::Block => 1,
        Effect::EnvironmentRead => 2,
        Effect::EnvironmentWrite => 3,
        Effect::FileRead => 4,
        Effect::FileWrite => 5,
        Effect::Network => 6,
        Effect::Process => 7,
        Effect::Random => 8,
        Effect::Time => 9,
        Effect::Unsafe => 10,
    }
}

impl Sortable for CallEdgeEvidence {
    open spec fn sort_order(&self, other: &CallEdgeEvidence) -> Comparison {
        settled_by(
            text_order(self.caller@, other.caller@),
            settled_by(
                text_order(self.callee@, other.callee@),
                span_order(self.call@, other.call@),
            ),
        )
    }

    proof fn sorts_consistently(
        first: CallEdgeEvidence,
        second: CallEdgeEvidence,
        third: CallEdgeEvidence,
    ) {
        lemma_text_order_consistent(first.caller@, second.caller@, third.caller@);
        lemma_text_order_consistent(first.callee@, second.callee@, third.callee@);
        lemma_span_order_consistent(first.call@, second.call@, third.call@);
    }

    fn compared_to(&self, other: &CallEdgeEvidence) -> (order: Comparison) {
        settled(
            text_compared(self.caller.as_str(), other.caller.as_str()),
            settled(
                text_compared(self.callee.as_str(), other.callee.as_str()),
                self.call.compared(&other.call),
            ),
        )
    }
}

impl Sortable for CallEffectEvidence {
    open spec fn sort_order(&self, other: &CallEffectEvidence) -> Comparison {
        settled_by(
            self.effect.sort_order(&other.effect),
            settled_by(
                text_order(self.origin@, other.origin@),
                list_order(self.path@, other.path@),
            ),
        )
    }

    proof fn sorts_consistently(
        first: CallEffectEvidence,
        second: CallEffectEvidence,
        third: CallEffectEvidence,
    ) {
        lemma_text_order_consistent(first.origin@, second.origin@, third.origin@);
        lemma_list_order_consistent(first.path@, second.path@, third.path@);
    }

    fn compared_to(&self, other: &CallEffectEvidence) -> (order: Comparison) {
        settled(
            self.effect.compared_to(&other.effect),
            settled(
                text_compared(self.origin.as_str(), other.origin.as_str()),
                list_compared(&self.path, &other.path),
            ),
        )
    }
}

impl Sortable for CallEffects {
    open spec fn sort_order(&self, other: &CallEffects) -> Comparison {
        settled_by(
            text_order(self.path@, other.path@),
            settled_by(
                list_order(self.effects@, other.effects@),
                list_order(self.evidence@, other.evidence@),
            ),
        )
    }

    proof fn sorts_consistently(first: CallEffects, second: CallEffects, third: CallEffects) {
        lemma_text_order_consistent(first.path@, second.path@, third.path@);
        lemma_list_order_consistent(first.effects@, second.effects@, third.effects@);
        lemma_list_order_consistent(first.evidence@, second.evidence@, third.evidence@);
    }

    fn compared_to(&self, other: &CallEffects) -> (order: Comparison) {
        settled(
            text_compared(self.path.as_str(), other.path.as_str()),
            settled(
                list_compared(&self.effects, &other.effects),
                list_compared(&self.evidence, &other.evidence),
            ),
        )
    }
}

impl Sortable for CallEffectCatalog {
    open spec fn sort_order(&self, other: &CallEffectCatalog) -> Comparison {
        settled_by(
            number_order(self.schema as int, other.schema as int),
            settled_by(
                text_order(self.language@, other.language@),
                settled_by(
                    text_order(self.version@, other.version@),
                    list_order(self.calls@, other.calls@),
                ),
            ),
        )
    }

    #[verifier::rlimit(30)]
    #[verifier::spinoff_prover]
    proof fn sorts_consistently(
        first: CallEffectCatalog,
        second: CallEffectCatalog,
        third: CallEffectCatalog,
    ) {
        let schemas = number_triangle(
            first.schema as int,
            second.schema as int,
            third.schema as int,
        );
        let languages = text_triangle(first.language@, second.language@, third.language@);
        let versions = text_triangle(first.version@, second.version@, third.version@);
        let calls = list_triangle(first.calls@, second.calls@, third.calls@);
        lemma_text_order_consistent(first.language@, second.language@, third.language@);
        lemma_text_order_consistent(first.version@, second.version@, third.version@);
        lemma_list_order_consistent(first.calls@, second.calls@, third.calls@);
        let by_version = settled_triangle(versions, calls);
        lemma_settled_agrees(versions, calls);
        let by_language = settled_triangle(languages, by_version);
        lemma_settled_agrees(languages, by_version);
        lemma_settled_agrees(schemas, by_language);
    }

    fn compared_to(&self, other: &CallEffectCatalog) -> (order: Comparison) {
        settled(
            compared(self.schema, other.schema),
            settled(
                text_compared(self.language.as_str(), other.language.as_str()),
                settled(
                    text_compared(self.version.as_str(), other.version.as_str()),
                    list_compared(&self.calls, &other.calls),
                ),
            ),
        )
    }
}

impl Sortable for AnalysisDiagnostic {
    open spec fn sort_order(&self, other: &AnalysisDiagnostic) -> Comparison {
        settled_by(
            path_order(components(self.path@), components(other.path@)),
            settled_by(
                text_order(self.analyzer@, other.analyzer@),
                text_order(self.message@, other.message@),
            ),
        )
    }

    proof fn sorts_consistently(
        first: AnalysisDiagnostic,
        second: AnalysisDiagnostic,
        third: AnalysisDiagnostic,
    ) {
        lemma_path_order_consistent(
            components(first.path@),
            components(second.path@),
            components(third.path@),
        );
        lemma_text_order_consistent(first.analyzer@, second.analyzer@, third.analyzer@);
        lemma_text_order_consistent(first.message@, second.message@, third.message@);
    }

    fn compared_to(&self, other: &AnalysisDiagnostic) -> (order: Comparison) {
        settled(
            path_compared(self.path.as_str(), other.path.as_str()),
            settled(
                text_compared(self.analyzer.as_str(), other.analyzer.as_str()),
                text_compared(self.message.as_str(), other.message.as_str()),
            ),
        )
    }
}

} // verus!
