//! The semantic-token vocabulary of the editor protocol: token categories
//! and modifiers with their numeric codes, the legend advertised to the
//! client, and the token payload types.

use vstd::prelude::*;

verus! {

/// The flat, delta-encoded token array returned for a full token request.
#[derive(Debug)]
pub struct SemanticTokens {
    pub data: Vec<u32>,
}

/// The capability block advertising semantic tokens.
#[derive(Debug)]
pub struct SemanticTokensOptions {
    pub legend: SemanticTokensLegend,
    pub full: bool,
}

/// The legend giving each numeric category and modifier code its name;
/// a code indexes into the matching list.
#[derive(Debug)]
pub struct SemanticTokensLegend {
    pub token_types: Vec<String>,
    pub token_modifiers: Vec<String>,
}

/// A token's category. Its numeric code is its rank here, the order the
/// legend lists.
#[derive(Debug, Clone, Copy, PartialEq, Eq, Structural)]
pub enum TokenType {
    Namespace,
    Class,
    Enum,
    Interface,
    Struct,
    TypeParameter,
    Type,
    Parameter,
    Variable,
    Property,
    EnumMember,
    Decorator,
    Event,
    Function,
    Method,
    Macro,
    Label,
    Comment,
    String,
    Keyword,
    Number,
    Regexp,
    Operator,
}

impl TokenType {
    /// The numeric code of this category.
    pub open spec fn code_spec(self) -> usize {
        match self {
            TokenType::Namespace => 0,
            TokenType::Class => 1,
            TokenType::Enum => 2,
            TokenType::Interface => 3,
            TokenType::Struct => 4,
            TokenType::TypeParameter => 5,
            TokenType::Type => 6,
            TokenType::Parameter => 7,
            TokenType::Variable => 8,
            TokenType::Property => 9,
            TokenType::EnumMember => 10,
            TokenType::Decorator => 11,
            TokenType::Event => 12,
            TokenType::Function => 13,
            TokenType::Method => 14,
            TokenType::Macro => 15,
            TokenType::Label => 16,
            TokenType::Comment => 17,
            TokenType::String => 18,
            TokenType::Keyword => 19,
            TokenType::Number => 20,
            TokenType::Regexp => 21,
            TokenType::Operator => 22,
        }
    }

    /// The numeric code sent on the wire for this category.
    pub fn code(&self) -> (c: usize)
        ensures
            c == self.code_spec(),
    {
        match self {
            TokenType::Namespace => 0,
            TokenType::Class => 1,
            TokenType::Enum => 2,
            TokenType::Interface => 3,
            TokenType::Struct => 4,
            TokenType::TypeParameter => 5,
            TokenType::Type => 6,
            TokenType::Parameter => 7,
            TokenType::Variable => 8,
            TokenType::Property => 9,
            TokenType::EnumMember => 10,
            TokenType::Decorator => 11,
            TokenType::Event => 12,
            TokenType::Function => 13,
            TokenType::Method => 14,
            TokenType::Macro => 15,
            TokenType::Label => 16,
            TokenType::Comment => 17,
            TokenType::String => 18,
            TokenType::Keyword => 19,
            TokenType::Number => 20,
            TokenType::Regexp => 21,
            TokenType::Operator => 22,
        }
    }
}

/// A token's modifier. Its numeric code is its rank here, the order the
/// legend lists.
#[derive(Debug, Clone, Copy, PartialEq, Eq, Structural)]
pub enum TokenModifier {
    Declaration,
    Definition,
    Readonly,
    Static,
    Deprecated,
    Abstract,
    Async,
    Modification,
    Documentation,
    DefaultLibrary,
}

impl TokenModifier {
    /// The numeric code of this modifier.
    pub open spec fn code_spec(self) -> usize {
        match self {
            TokenModifier::Declaration => 0,
            TokenModifier::Definition => 1,
            TokenModifier::Readonly => 2,
            TokenModifier::Static => 3,
            TokenModifier::Deprecated => 4,
            TokenModifier::Abstract => 5,
            TokenModifier::Async => 6,
            TokenModifier::Modification => 7,
            TokenModifier::Documentation => 8,
            TokenModifier::DefaultLibrary => 9,
        }
    }

    /// The numeric code sent on the wire for this modifier.
    pub fn code(&self) -> (c: usize)
        ensures
            c == self.code_spec(),
    {
        match self {
            TokenModifier::Declaration => 0,
            TokenModifier::Definition => 1,
            TokenModifier::Readonly => 2,
            TokenModifier::Static => 3,
            TokenModifier::Deprecated => 4,
            TokenModifier::Abstract => 5,
            TokenModifier::Async => 6,
            TokenModifier::Modification => 7,
            TokenModifier::Documentation => 8,
            TokenModifier::DefaultLibrary => 9,
        }
    }
}

/// The code emitted for an optional modifier: the modifier's own code, or
/// zero when there is none.
pub open spec fn modifier_code(m: Option<TokenModifier>) -> usize {
    match m {
        Some(x) => x.code_spec(),
        None => 0,
    }
}

/// The wire names of an enumeration's values, in code order and with the
/// protocol's lower-camel-case spelling.
pub trait ToCamelVec {
    /// The names, in the order their codes index.
    spec fn camel_names() -> Seq<Seq<char>>;

    /// Builds the name list for the legend.
    fn get_vec() -> (v: Vec<String>)
        ensures
            v.deep_view() == Self::camel_names(),
    ;
}

impl ToCamelVec for TokenType {
    open spec fn camel_names() -> Seq<Seq<char>> {
        seq![
            "namespace"@,
            "class"@,
            "enum"@,
            "interface"@,
            "struct"@,
            "typeParameter"@,
            "type"@,
            "parameter"@,
            "variable"@,
            "property"@,
            "enumMember"@,
            "decorator"@,
            "event"@,
            "function"@,
            "method"@,
            "macro"@,
            "label"@,
            "comment"@,
            "string"@,
            "keyword"@,
            "number"@,
            "regexp"@,
            "operator"@,
        ]
    }

    fn get_vec() -> (v: Vec<String>) {
        let mut v: Vec<String> = Vec::new();
        v.push(String::from_str("namespace"));
        v.push(String::from_str("class"));
        v.push(String::from_str("enum"));
        v.push(String::from_str("interface"));
        v.push(String::from_str("struct"));
        v.push(String::from_str("typeParameter"));
        v.push(String::from_str("type"));
        v.push(String::from_str("parameter"));
        v.push(String::from_str("variable"));
        v.push(String::from_str("property"));
        v.push(String::from_str("enumMember"));
        v.push(String::from_str("decorator"));
        v.push(String::from_str("event"));
        v.push(String::from_str("function"));
        v.push(String::from_str("method"));
        v.push(String::from_str("macro"));
        v.push(String::from_str("label"));
        v.push(String::from_str("comment"));
        v.push(String::from_str("string"));
        v.push(String::from_str("keyword"));
        v.push(String::from_str("number"));
        v.push(String::from_str("regexp"));
        v.push(String::from_str("operator"));
        proof {
            assert(v.deep_view() =~= Self::camel_names());
        }
        v
    }
}

impl ToCamelVec for TokenModifier {
    open spec fn camel_names() -> Seq<Seq<char>> {
        seq![
            "declaration"@,
            "definition"@,
            "readonly"@,
            "static"@,
            "deprecated"@,
            "abstract"@,
            "async"@,
            "modification"@,
            "documentation"@,
            "defaultLibrary"@,
        ]
    }

    fn get_vec() -> (v: Vec<String>) {
        let mut v: Vec<String> = Vec::new();
        v.push(String::from_str("declaration"));
        v.push(String::from_str("definition"));
        v.push(String::from_str("readonly"));
        v.push(String::from_str("static"));
        v.push(String::from_str("deprecated"));
        v.push(String::from_str("abstract"));
        v.push(String::from_str("async"));
        v.push(String::from_str("modification"));
        v.push(String::from_str("documentation"));
        v.push(String::from_str("defaultLibrary"));
        proof {
            assert(v.deep_view() =~= Self::camel_names());
        }
        v
    }
}

} // verus!
