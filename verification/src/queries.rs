//! The fixed queries for the schema procedures, and the columns they return.

use vstd::prelude::*;

verus! {

/// Asks for the properties of the nodes: columns `Label`, `Property`, `Type` and
/// `Required`.
pub const NODE_PROPS_QUERY: &'static str = "CALL db.schema.nodeTypeProperties() \
     YIELD nodeLabels,                   \
           propertyName,                 \
           propertyTypes,                \
           mandatory                     \
     RETURN nodeLabels    AS Label,      \
            propertyName  AS Property,   \
            propertyTypes AS Type,       \
            mandatory     AS Required    \
     ORDER BY Label, Property";

/// Asks for the properties of the relationships: columns `Relationship`,
/// `Property`, `Type` and `Required`.
pub const REL_PROPS_QUERY: &'static str = "CALL db.schema.relTypeProperties()    \
     YIELD relType,                        \
           propertyName,                   \
           propertyTypes,                  \
           mandatory                       \
     RETURN relType       AS Relationship, \
            propertyName  AS Property,     \
            propertyTypes AS Type,         \
            mandatory     AS Required      \
     ORDER BY relType, Property";

/// Asks for the relationships between labels: columns `StartNode`,
/// `Relationship` and `EndNode`.
pub const PATTERNS_QUERY: &'static str = "CALL db.schema.visualization()    \
     YIELD relationships               \
     UNWIND relationships AS rel       \
     WITH startNode(rel) AS s,         \
          type(rel)      AS t,         \
          endNode(rel)   AS e          \
     RETURN labels(s) AS StartNode,    \
            t         AS Relationship, \
            labels(e) AS EndNode";

} // verus!
