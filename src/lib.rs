//! Dependency-graph algorithms over CoNLL-X sentences: graph construction,
//! cycle detection, PP re-attachment, morphology expansion, and the token
//! layers and Unicode cleanup used by the command-line tools.

pub mod graph;
pub mod layer;
pub mod morph;
pub mod pp_reattach;
pub mod text;
pub mod token;
pub mod unicode;

pub use crate::graph::{
    check_cycles, find_cycles, first_matching_edge, sentence_to_graph, DependencyGraph,
    DependencyNode, Direction, MAX_GRAPH_SIZE,
};
pub use crate::layer::{
    count_agreement, count_feature_agreement, decimal_string, diff_indices, feature_value,
    layer_callback, match_indexes, CompareError, Layer,
};
pub use crate::morph::{
    attributes_of_tag, expand_sentence, expand_tdz_morph, MorphAttribute, MorphError,
};
pub use crate::pp_reattach::reattach_aux_pps;
pub use crate::token::Token;
pub use crate::unicode::{
    cleanup, normalization_from, normalize, simplify_punct_str, simplify_unicode,
    simplify_unicode_punct, Conversion, Normalization,
};
