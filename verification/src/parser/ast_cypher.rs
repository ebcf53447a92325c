//! Syntax trees of CypherQL.
use vstd::prelude::*;

use crate::names::NameMap;
use crate::parser::ast::{
    lemma_texts_push, lemma_views_push, opt_text, text_map, texts, views, AggregateFunction, GraphDefinition,
    GraphDefinitionView, OrderCondition, OrderConditionView, StreamView, WindowSpec,
};
use crate::text::{append_text, decimal_digits, digits};

verus! {

/// Kinds of CypherQL queries.
#[derive(Clone, Copy, Debug, PartialEq, Eq, Structural)]
#[non_exhaustive]
pub enum CypherQueryType {
    Select,
    Construct,
    Update,
}

/// A stream and its window.
#[derive(Clone, Debug, PartialEq)]
pub struct CypherStreamDefinition {
    pub name: String,
    pub window: WindowSpec,
}

impl View for CypherStreamDefinition {
    type V = StreamView;

    open spec fn view(&self) -> StreamView {
        StreamView { name: self.name@, window: self.window }
    }
}

/// Where the patterns of a group are looked for.
#[derive(Clone, Copy, Debug, PartialEq, Eq, Structural)]
#[non_exhaustive]
pub enum PatternSource {
    Stream,
    Static,
    Graph,
    Default,
}

/// The labels, each behind a colon.
pub open spec fn label_texts(labels: Seq<Seq<char>>) -> Seq<char>
    decreases labels.len(),
{
    if labels.len() == 0 {
        Seq::empty()
    } else {
        label_texts(labels.drop_last()) + ":"@ + labels.last()
    }
}

/// A node pattern.
#[derive(Clone, Debug, PartialEq)]
pub struct NodePattern {
    pub variable: Option<String>,
    pub labels: Vec<String>,
    pub properties: NameMap<String>,
}

pub struct NodePatternView {
    pub variable: Option<Seq<char>>,
    pub labels: Seq<Seq<char>>,
    pub properties: Map<Seq<char>, Seq<char>>,
}

impl View for NodePattern {
    type V = NodePatternView;

    open spec fn view(&self) -> NodePatternView {
        NodePatternView {
            variable: opt_text(self.variable),
            labels: texts(self.labels@),
            properties: text_map(self.properties@),
        }
    }
}

impl NodePattern {
    /// Variable and labels, and the number of properties where there are some.
    pub open spec fn rendered(&self) -> Seq<char> {
        let variable = match self@.variable {
            Some(v) => v,
            None => Seq::empty(),
        };
        let n = self.properties.keys().len();
        let properties = if n > 0 {
            " {"@ + decimal_digits(n) + " props}"@
        } else {
            Seq::empty()
        };
        "("@ + variable + label_texts(self@.labels) + properties + ")"@
    }

    pub fn to_text(&self) -> (r: String)
        ensures
            r@ == self.rendered(),
    {
        let mut r = "(".to_string();
        match &self.variable {
            Some(v) => {
                append_text(&mut r, v.as_str());
            },
            None => {
                assert("("@ + Seq::<char>::empty() =~= "("@);
            },
        }
        let ghost head = r@;
        let ghost labels = self@.labels;
        let mut i: usize = 0;
        assert(head + label_texts(labels.take(0)) =~= head);
        while i < self.labels.len()
            invariant
                labels == texts(self.labels@),
                i <= self.labels@.len(),
                r@ == head + label_texts(labels.take(i as int)),
            decreases self.labels@.len() - i,
        {
            append_text(&mut r, ":");
            append_text(&mut r, self.labels[i].as_str());
            proof {
                assert(labels[i as int] == self.labels@[i as int]@);
                assert(labels.take(i + 1).drop_last() =~= labels.take(i as int));
                let before = label_texts(labels.take(i as int));
                assert(head + before + ":"@ + labels[i as int] =~= head + (before + ":"@ + labels[i as int]));
            }
            i += 1;
        }
        assert(labels.take(i as int) =~= labels);
        if self.properties.len() > 0 {
            append_text(&mut r, " {");
            append_text(&mut r, digits(self.properties.len() as u64).as_str());
            append_text(&mut r, " props}");
        }
        append_text(&mut r, ")");
        assert(r@ =~= self.rendered());
        r
    }
}

/// Directions of relationships.
#[derive(Clone, Copy, Debug, PartialEq, Eq, Structural)]
#[non_exhaustive]
pub enum RelDirection {
    Outgoing,
    Incoming,
    Undirected,
}

/// Bounds on the length of a path.
#[derive(Clone, Copy, Debug, PartialEq, Eq, Structural)]
pub struct PathLength {
    pub min_length: Option<u32>,
    pub max_length: Option<u32>,
}

impl PathLength {
    pub fn is_unbounded(&self) -> (r: bool)
        ensures
            r == (self.max_length is None),
    {
        self.max_length.is_none()
    }

    pub fn has_minimum(&self) -> (r: bool)
        ensures
            r == (self.min_length is Some),
    {
        self.min_length.is_some()
    }

    /// The bounds as they are written in a query.
    pub open spec fn rendered(&self) -> Seq<char> {
        match (self.min_length, self.max_length) {
            (None, None) => "*"@,
            (Some(min), Some(max)) => if min == max {
                "*"@ + decimal_digits(min as nat)
            } else {
                "*"@ + decimal_digits(min as nat) + ".."@ + decimal_digits(max as nat)
            },
            (Some(min), None) => "*"@ + decimal_digits(min as nat) + ".."@,
            (None, Some(max)) => "*.."@ + decimal_digits(max as nat),
        }
    }

    pub fn to_text(&self) -> (r: String)
        ensures
            r@ == self.rendered(),
    {
        match (self.min_length, self.max_length) {
            (None, None) => "*".to_string(),
            (Some(min), Some(max)) => {
                let mut r = "*".to_string();
                append_text(&mut r, digits(min as u64).as_str());
                if min != max {
                    append_text(&mut r, "..");
                    append_text(&mut r, digits(max as u64).as_str());
                }
                r
            },
            (Some(min), None) => {
                let mut r = "*".to_string();
                append_text(&mut r, digits(min as u64).as_str());
                append_text(&mut r, "..");
                r
            },
            (None, Some(max)) => {
                let mut r = "*..".to_string();
                append_text(&mut r, digits(max as u64).as_str());
                r
            },
        }
    }
}

/// A relationship pattern.
#[derive(Clone, Debug, PartialEq)]
pub struct RelationshipPattern {
    pub variable: Option<String>,
    pub types: Vec<String>,
    pub direction: RelDirection,
    pub properties: NameMap<String>,
    pub start_node: Option<String>,
    pub end_node: Option<String>,
    pub path_length: Option<PathLength>,
}

pub struct RelationshipView {
    pub variable: Option<Seq<char>>,
    pub types: Seq<Seq<char>>,
    pub direction: RelDirection,
    pub properties: Map<Seq<char>, Seq<char>>,
    pub start_node: Option<Seq<char>>,
    pub end_node: Option<Seq<char>>,
    pub path_length: Option<PathLength>,
}

impl View for RelationshipPattern {
    type V = RelationshipView;

    open spec fn view(&self) -> RelationshipView {
        RelationshipView {
            variable: opt_text(self.variable),
            types: texts(self.types@),
            direction: self.direction,
            properties: text_map(self.properties@),
            start_node: opt_text(self.start_node),
            end_node: opt_text(self.end_node),
            path_length: self.path_length,
        }
    }
}

impl RelationshipPattern {
    pub fn is_variable_length(&self) -> (r: bool)
        ensures
            r == (self.path_length is Some),
    {
        self.path_length.is_some()
    }
}

/// A graph pattern.
#[derive(Clone, Debug, PartialEq)]
pub struct CypherPattern {
    pub nodes: Vec<NodePattern>,
    pub relationships: Vec<RelationshipPattern>,
}

pub struct CypherPatternView {
    pub nodes: Seq<NodePatternView>,
    pub relationships: Seq<RelationshipView>,
}

impl View for CypherPattern {
    type V = CypherPatternView;

    open spec fn view(&self) -> CypherPatternView {
        CypherPatternView { nodes: views(self.nodes@), relationships: views(self.relationships@) }
    }
}

/// Patterns and where they are looked for.
#[derive(Clone, Debug, PartialEq)]
pub struct PatternGroup {
    pub source: PatternSource,
    pub source_name: Option<String>,
    pub patterns: Vec<CypherPattern>,
}

pub struct PatternGroupView {
    pub source: PatternSource,
    pub source_name: Option<Seq<char>>,
    pub patterns: Seq<CypherPatternView>,
}

impl View for PatternGroup {
    type V = PatternGroupView;

    open spec fn view(&self) -> PatternGroupView {
        PatternGroupView {
            source: self.source,
            source_name: opt_text(self.source_name),
            patterns: views(self.patterns@),
        }
    }
}

/// Comparisons of properties.
#[derive(Clone, Copy, Debug, PartialEq, Eq, Structural)]
#[non_exhaustive]
pub enum FilterOperator {
    Eq,
    Neq,
    Lt,
    Gt,
    Lte,
    Gte,
    Contains,
    StartsWith,
    EndsWith,
    In,
}

impl FilterOperator {
    pub open spec fn rendered(&self) -> Seq<char> {
        match self {
            FilterOperator::Eq => "="@,
            FilterOperator::Neq => "<>"@,
            FilterOperator::Lt => "<"@,
            FilterOperator::Gt => ">"@,
            FilterOperator::Lte => "<="@,
            FilterOperator::Gte => ">="@,
            FilterOperator::Contains => "CONTAINS"@,
            FilterOperator::StartsWith => "STARTS WITH"@,
            FilterOperator::EndsWith => "ENDS WITH"@,
            FilterOperator::In => "IN"@,
        }
    }

    pub fn to_text(&self) -> (r: String)
        ensures
            r@ == self.rendered(),
    {
        match self {
            FilterOperator::Eq => "=".to_string(),
            FilterOperator::Neq => "<>".to_string(),
            FilterOperator::Lt => "<".to_string(),
            FilterOperator::Gt => ">".to_string(),
            FilterOperator::Lte => "<=".to_string(),
            FilterOperator::Gte => ">=".to_string(),
            FilterOperator::Contains => "CONTAINS".to_string(),
            FilterOperator::StartsWith => "STARTS WITH".to_string(),
            FilterOperator::EndsWith => "ENDS WITH".to_string(),
            FilterOperator::In => "IN".to_string(),
        }
    }
}

/// A comparison of a property with a value.
#[derive(Clone, Debug, PartialEq)]
pub struct PropertyFilter {
    pub variable: String,
    pub property: String,
    pub operator: FilterOperator,
    pub value: String,
}

impl PropertyFilter {
    pub open spec fn rendered(&self) -> Seq<char> {
        self.variable@ + "."@ + self.property@ + " "@ + self.operator.rendered() + " "@ + self.value@
    }

    pub fn to_text(&self) -> (r: String)
        ensures
            r@ == self.rendered(),
    {
        let mut r = self.variable.clone();
        append_text(&mut r, ".");
        append_text(&mut r, self.property.as_str());
        append_text(&mut r, " ");
        append_text(&mut r, self.operator.to_text().as_str());
        append_text(&mut r, " ");
        append_text(&mut r, self.value.as_str());
        r
    }
}

/// An element of the RETURN clause.
#[derive(Clone, Debug, PartialEq)]
pub struct ReturnExpression {
    pub expression: String,
    pub alias: Option<String>,
    pub aggregate_function: Option<AggregateFunction>,
    pub distinct: bool,
}

pub struct ReturnView {
    pub expression: Seq<char>,
    pub alias: Option<Seq<char>>,
    pub aggregate_function: Option<AggregateFunction>,
    pub distinct: bool,
}

impl View for ReturnExpression {
    type V = ReturnView;

    open spec fn view(&self) -> ReturnView {
        ReturnView {
            expression: self.expression@,
            alias: opt_text(self.alias),
            aggregate_function: self.aggregate_function,
            distinct: self.distinct,
        }
    }
}

impl ReturnExpression {
    pub open spec fn rendered(&self) -> Seq<char> {
        let value = match self.aggregate_function {
            Some(f) => if self.distinct {
                f.rendered() + "("@ + "DISTINCT "@ + self.expression@ + ")"@
            } else {
                f.rendered() + "("@ + self.expression@ + ")"@
            },
            None => self.expression@,
        };
        match self@.alias {
            Some(alias) => value + " AS "@ + alias,
            None => value,
        }
    }

    pub fn to_text(&self) -> (r: String)
        ensures
            r@ == self.rendered(),
    {
        let mut r: String = match self.aggregate_function {
            Some(f) => {
                let mut r = f.to_text();
                append_text(&mut r, "(");
                if self.distinct {
                    append_text(&mut r, "DISTINCT ");
                }
                append_text(&mut r, self.expression.as_str());
                append_text(&mut r, ")");
                r
            },
            None => self.expression.clone(),
        };
        match &self.alias {
            Some(alias) => {
                append_text(&mut r, " AS ");
                append_text(&mut r, alias.as_str());
            },
            None => {},
        }
        r
    }
}

/// A CypherQL query.
#[derive(Clone, Debug, PartialEq)]
pub struct CypherQueryDefinition {
    pub name: Option<String>,
    pub query_type: CypherQueryType,
    pub streams: Vec<CypherStreamDefinition>,
    pub static_graphs: Vec<GraphDefinition>,
    pub named_graphs: Vec<GraphDefinition>,
    pub pattern_groups: Vec<PatternGroup>,
    pub where_expression: Option<String>,
    pub return_expressions: Vec<ReturnExpression>,
    pub distinct: bool,
    pub group_by_expressions: Vec<String>,
    pub having_filters: Vec<String>,
    pub order_by_conditions: Vec<OrderCondition>,
    pub limit: Option<u64>,
}

pub struct CypherQueryView {
    pub name: Option<Seq<char>>,
    pub query_type: CypherQueryType,
    pub streams: Seq<StreamView>,
    pub static_graphs: Seq<GraphDefinitionView>,
    pub named_graphs: Seq<GraphDefinitionView>,
    pub pattern_groups: Seq<PatternGroupView>,
    pub where_expression: Option<Seq<char>>,
    pub return_expressions: Seq<ReturnView>,
    pub distinct: bool,
    pub group_by_expressions: Seq<Seq<char>>,
    pub having_filters: Seq<Seq<char>>,
    pub order_by_conditions: Seq<OrderConditionView>,
    pub limit: Option<u64>,
}

impl View for CypherQueryDefinition {
    type V = CypherQueryView;

    open spec fn view(&self) -> CypherQueryView {
        CypherQueryView {
            name: opt_text(self.name),
            query_type: self.query_type,
            streams: views(self.streams@),
            static_graphs: views(self.static_graphs@),
            named_graphs: views(self.named_graphs@),
            pattern_groups: views(self.pattern_groups@),
            where_expression: opt_text(self.where_expression),
            return_expressions: views(self.return_expressions@),
            distinct: self.distinct,
            group_by_expressions: texts(self.group_by_expressions@),
            having_filters: texts(self.having_filters@),
            order_by_conditions: views(self.order_by_conditions@),
            limit: self.limit,
        }
    }
}

/// A query that says nothing.
pub open spec fn blank_cypher() -> CypherQueryView {
    CypherQueryView {
        name: None,
        query_type: CypherQueryType::Select,
        streams: Seq::empty(),
        static_graphs: Seq::empty(),
        named_graphs: Seq::empty(),
        pattern_groups: Seq::empty(),
        where_expression: None,
        return_expressions: Seq::empty(),
        distinct: false,
        group_by_expressions: Seq::empty(),
        having_filters: Seq::empty(),
        order_by_conditions: Seq::empty(),
        limit: None,
    }
}

impl CypherQueryDefinition {
    /// A builder that starts from a query that says nothing.
    pub fn builder() -> (r: CypherQueryDefinitionBuilder)
        ensures
            r@ == blank_cypher(),
    {
        CypherQueryDefinitionBuilder::default()
    }
}

/// Builds a CypherQL query step by step.
#[derive(Clone, Debug)]
pub struct CypherQueryDefinitionBuilder {
    definition: CypherQueryDefinition,
}

impl View for CypherQueryDefinitionBuilder {
    type V = CypherQueryView;

    closed spec fn view(&self) -> CypherQueryView {
        self.definition@
    }
}

impl Default for CypherQueryDefinitionBuilder {
    fn default() -> (r: Self)
        ensures
            r@ == blank_cypher(),
    {
        let definition = CypherQueryDefinition {
            name: None,
            query_type: CypherQueryType::Select,
            streams: Vec::new(),
            static_graphs: Vec::new(),
            named_graphs: Vec::new(),
            pattern_groups: Vec::new(),
            where_expression: None,
            return_expressions: Vec::new(),
            distinct: false,
            group_by_expressions: Vec::new(),
            having_filters: Vec::new(),
            order_by_conditions: Vec::new(),
            limit: None,
        };
        proof {
            let v = definition@;
            assert(v.streams =~= Seq::<StreamView>::empty());
            assert(v.static_graphs =~= Seq::<GraphDefinitionView>::empty());
            assert(v.named_graphs =~= Seq::<GraphDefinitionView>::empty());
            assert(v.pattern_groups =~= Seq::<PatternGroupView>::empty());
            assert(v.return_expressions =~= Seq::<ReturnView>::empty());
            assert(v.group_by_expressions =~= Seq::<Seq<char>>::empty());
            assert(v.having_filters =~= Seq::<Seq<char>>::empty());
            assert(v.order_by_conditions =~= Seq::<OrderConditionView>::empty());
        }
        CypherQueryDefinitionBuilder { definition }
    }
}

impl CypherQueryDefinitionBuilder {
    pub fn name(self, name: &str) -> (r: Self)
        ensures
            r@ == (CypherQueryView { name: Some(name@), ..self@ }),
    {
        let mut definition = self.definition;
        definition.name = Some(name.to_string());
        CypherQueryDefinitionBuilder { definition }
    }

    pub fn query_type(self, qt: CypherQueryType) -> (r: Self)
        ensures
            r@ == (CypherQueryView { query_type: qt, ..self@ }),
    {
        let mut definition = self.definition;
        definition.query_type = qt;
        CypherQueryDefinitionBuilder { definition }
    }

    pub fn add_stream(self, stream: CypherStreamDefinition) -> (r: Self)
        ensures
            r@ == (CypherQueryView { streams: self@.streams.push(stream@), ..self@ }),
    {
        let mut definition = self.definition;
        proof {
            lemma_views_push(definition.streams@, stream);
        }
        definition.streams.push(stream);
        CypherQueryDefinitionBuilder { definition }
    }

    pub fn add_static_graph(self, graph: GraphDefinition) -> (r: Self)
        ensures
            r@ == (CypherQueryView { static_graphs: self@.static_graphs.push(graph@), ..self@ }),
    {
        let mut definition = self.definition;
        proof {
            lemma_views_push(definition.static_graphs@, graph);
        }
        definition.static_graphs.push(graph);
        CypherQueryDefinitionBuilder { definition }
    }

    pub fn add_named_graph(self, graph: GraphDefinition) -> (r: Self)
        ensures
            r@ == (CypherQueryView { named_graphs: self@.named_graphs.push(graph@), ..self@ }),
    {
        let mut definition = self.definition;
        proof {
            lemma_views_push(definition.named_graphs@, graph);
        }
        definition.named_graphs.push(graph);
        CypherQueryDefinitionBuilder { definition }
    }

    pub fn add_pattern_group(self, group: PatternGroup) -> (r: Self)
        ensures
            r@ == (CypherQueryView { pattern_groups: self@.pattern_groups.push(group@), ..self@ }),
    {
        let mut definition = self.definition;
        proof {
            lemma_views_push(definition.pattern_groups@, group);
        }
        definition.pattern_groups.push(group);
        CypherQueryDefinitionBuilder { definition }
    }

    pub fn add_return_expression(self, expr: ReturnExpression) -> (r: Self)
        ensures
            r@ == (CypherQueryView { return_expressions: self@.return_expressions.push(expr@), ..self@ }),
    {
        let mut definition = self.definition;
        proof {
            lemma_views_push(definition.return_expressions@, expr);
        }
        definition.return_expressions.push(expr);
        CypherQueryDefinitionBuilder { definition }
    }

    pub fn add_order_by(self, cond: OrderCondition) -> (r: Self)
        ensures
            r@ == (CypherQueryView { order_by_conditions: self@.order_by_conditions.push(cond@), ..self@ }),
    {
        let mut definition = self.definition;
        proof {
            lemma_views_push(definition.order_by_conditions@, cond);
        }
        definition.order_by_conditions.push(cond);
        CypherQueryDefinitionBuilder { definition }
    }

    pub fn add_group_by(self, expr: &str) -> (r: Self)
        ensures
            r@ == (CypherQueryView { group_by_expressions: self@.group_by_expressions.push(expr@), ..self@ }),
    {
        let mut definition = self.definition;
        let t = expr.to_string();
        proof {
            lemma_texts_push(definition.group_by_expressions@, t);
        }
        definition.group_by_expressions.push(t);
        CypherQueryDefinitionBuilder { definition }
    }

    pub fn add_having_filter(self, filter: &str) -> (r: Self)
        ensures
            r@ == (CypherQueryView { having_filters: self@.having_filters.push(filter@), ..self@ }),
    {
        let mut definition = self.definition;
        let t = filter.to_string();
        proof {
            lemma_texts_push(definition.having_filters@, t);
        }
        definition.having_filters.push(t);
        CypherQueryDefinitionBuilder { definition }
    }

    pub fn where_expression(self, expr: &str) -> (r: Self)
        ensures
            r@ == (CypherQueryView { where_expression: Some(expr@), ..self@ }),
    {
        let mut definition = self.definition;
        definition.where_expression = Some(expr.to_string());
        CypherQueryDefinitionBuilder { definition }
    }

    pub fn distinct(self, d: bool) -> (r: Self)
        ensures
            r@ == (CypherQueryView { distinct: d, ..self@ }),
    {
        let mut definition = self.definition;
        definition.distinct = d;
        CypherQueryDefinitionBuilder { definition }
    }

    pub fn limit(self, limit: u64) -> (r: Self)
        ensures
            r@ == (CypherQueryView { limit: Some(limit), ..self@ }),
    {
        let mut definition = self.definition;
        definition.limit = Some(limit);
        CypherQueryDefinitionBuilder { definition }
    }

    pub fn build(self) -> (r: CypherQueryDefinition)
        ensures
            r@ == self@,
    {
        self.definition
    }
}

} // verus!
