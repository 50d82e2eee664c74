//! Stable diagnostic codes. Codes are namespaced strings (`memspec/E####`,
//! `memspec/W####`, `memspec/I####`) and are never reused once allocated.
//!
//! Lexer codes occupy E0001 – E0099, parser codes E0100 – E0199, analyzer
//! codes E0200 and up.

use vstd::prelude::*;

verus! {

// Lexer
pub const E_LEX_UNTERMINATED_STRING: &'static str = "memspec/E0001";
pub const E_LEX_UNTERMINATED_BLOCK_COMMENT: &'static str = "memspec/E0002";
pub const E_LEX_UNEXPECTED_CHAR: &'static str = "memspec/E0003";
pub const E_LEX_INVALID_ESCAPE: &'static str = "memspec/E0004";
pub const E_LEX_INVALID_INT: &'static str = "memspec/E0005";
pub const E_LEX_NOT_A_MEMSPEC: &'static str = "memspec/E0006";

// Parser
pub const E_PARSE_EXPECTED_TOKEN: &'static str = "memspec/E0100";
pub const E_PARSE_EXPECTED_IDENT: &'static str = "memspec/E0101";
pub const E_PARSE_EXPECTED_FIELD_VALUE: &'static str = "memspec/E0102";
pub const E_PARSE_UNCLOSED_BLOCK: &'static str = "memspec/E0103";
pub const E_PARSE_UNEXPECTED_TOKEN: &'static str = "memspec/E0104";
pub const E_PARSE_EMPTY_FILE: &'static str = "memspec/E0105";
pub const E_PARSE_MULTIPLE_SLICES: &'static str = "memspec/E0106";
pub const E_PARSE_EXPECTED_SLICE: &'static str = "memspec/E0107";
pub const E_PARSE_USE_AFTER_DECL: &'static str = "memspec/E0108";
pub const E_PARSE_EXPECTED_AS: &'static str = "memspec/E0109";
pub const E_PARSE_DUPLICATE_IMPORT_ALIAS: &'static str = "memspec/E0110";

// Analyzer: structural completeness (E0200 – E0249)
pub const E_STRUCT_MISSING_FIELD: &'static str = "memspec/E0200";
pub const E_STRUCT_EMPTY_SLICE: &'static str = "memspec/E0201";
pub const E_STRUCT_EVENT_NO_STEPS: &'static str = "memspec/E0202";
pub const E_STRUCT_FORBIDDEN_STATE_BODY: &'static str = "memspec/E0203";
pub const I_STRUCT_KILL_TEST_TODO: &'static str = "memspec/I0220";

// Analyzer: coherence (E0250 – E0299)
pub const E_COH_DUPLICATE_ID: &'static str = "memspec/E0250";
pub const E_COH_DUPLICATE_STEP_ID: &'static str = "memspec/E0251";
pub const E_COH_UNRESOLVED_CELL_REF: &'static str = "memspec/E0252";
pub const E_COH_UNRESOLVED_EVENT_REF: &'static str = "memspec/E0253";
pub const E_COH_UNRESOLVED_STEP_REF: &'static str = "memspec/E0254";
pub const E_COH_UNRESOLVED_FORBIDDEN_REF: &'static str = "memspec/E0255";
pub const E_COH_UNRESOLVED_KILL_TEST_REF: &'static str = "memspec/E0256";
pub const E_COH_BIPARTITE_MISMATCH: &'static str = "memspec/E0257";
pub const E_COH_DERIVATION_CYCLE: &'static str = "memspec/E0258";
pub const E_COH_STEP_NOT_FALLIBLE: &'static str = "memspec/E0259";

// Analyzer: coherence warnings (W0270 – W0299)
pub const W_COH_UNUSED_CELL: &'static str = "memspec/W0270";
pub const W_COH_EVENT_EMPTY_MUTATES: &'static str = "memspec/W0271";
pub const W_COH_REDUNDANT_KILL_TEST: &'static str = "memspec/W0272";

// Analyzer: symmetric-failure (E0300 – E0349)
pub const E_SYMFAIL_MISSING_POST_FAILURE: &'static str = "memspec/E0300";
pub const E_SYMFAIL_MISSING_ROLLBACK_PAIR: &'static str = "memspec/E0301";

// Loader / cross-slice imports (E0400 – E0449)
pub const E_LOADER_NOT_FOUND: &'static str = "memspec/E0400";
pub const E_LOADER_IMPORT_CYCLE: &'static str = "memspec/E0401";
pub const E_LOADER_UNRESOLVED_ALIAS: &'static str = "memspec/E0402";
pub const E_LOADER_QUALIFIED_REF_UNRESOLVED: &'static str = "memspec/E0403";

// Composition warnings (W0273 – W0299)
pub const W_COMP_UNUSED_IMPORT: &'static str = "memspec/W0273";
pub const W_COMP_DUPLICATE_IMPORT_TARGET: &'static str = "memspec/W0274";
pub const W_COMP_IMPORTED_ID_SHADOWED: &'static str = "memspec/W0275";

// Inline revisions (E0500 – E0549)
pub const E_REV_BASE_HASH_BREAK: &'static str = "memspec/E0500";
pub const E_REV_NUMBER_GAP: &'static str = "memspec/E0501";
pub const E_REV_TERMINAL_MISMATCH: &'static str = "memspec/E0502";
pub const E_REV_REPLAY_FAILED: &'static str = "memspec/E0503";
pub const E_REV_UNKNOWN_OP: &'static str = "memspec/E0504";
pub const E_REV_REORDER_FORBIDDEN_ON_WALKS: &'static str = "memspec/E0505";
pub const E_REV_DIFF_VOCABULARY_HOLE: &'static str = "memspec/E0506";
pub const E_REV_DIFF_NULL_BUT_TEXT_DIFFERS: &'static str = "memspec/E0507";
pub const W_REV_LONG_CHAIN: &'static str = "memspec/W0550";

} // verus!
