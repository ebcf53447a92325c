//! Parsers of the query languages.
//!
//! CQELS-QL extends SPARQL, and CypherQL a part of openCypher, by streams with
//! windows. A query is matched against a grammar of parsing expressions; the
//! nodes of the match are then read into a syntax tree.
pub mod ast;
pub mod ast_cypher;
pub mod capitals;
pub mod clause_laws;
pub mod cqels_laws;
pub mod cqels_reading;
pub mod cqelsql;
pub mod cqelsql_spec;
pub mod cypher_laws;
pub mod cypher_reading;
pub mod cypherql;
pub mod cypherql_spec;
pub mod error;
pub mod gap_laws;
pub mod grammar;
pub mod peg;
pub mod reading_laws;
pub mod shapes;
pub mod step_laws;
pub mod tree;
pub mod tree_laws;
pub mod view_laws;

pub use ast::{
    AggregateFunction, AggregateSpec, CqelsPatternGroup, CqelsQueryDefinition,
    CqelsQueryDefinitionBuilder, CqelsQueryType, CqelsStreamDefinition, CypherPattern,
    CypherQueryDefinition, CypherQueryDefinitionBuilder, CypherQueryType, CypherStreamDefinition,
    Duration, FilterOperator, GraphDefinition, NamedWindowDefinition, NodePattern, OperatorHints,
    OrderCondition, PathLength, PatternGroup, PatternSource, PropertyFilter, RelDirection,
    RelationshipPattern, ReturnExpression, SelectElement, SeqArg, SeqConstraint, SortDirection,
    StreamSemantics, TriplePattern, WindowSpec, WindowType,
};
pub use cqelsql::CqelsQlParser;
pub use cypherql::CypherQlParser;
pub use error::{CqelsError, ParseError, ParseErrorDetail, ParseErrorKind, ParseResult};
