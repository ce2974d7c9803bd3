//! The declarations an index records, and their mathematical views.

use vstd::prelude::*;

use crate::text::texts;

verus! {

/// What kind of type a declaration introduces.
#[derive(Clone, Copy, Debug, PartialEq, Eq, Structural)]
pub enum TypeKind {
    Class,
    Interface,
    Enum,
    Record,
}

/// A field (or a record component).
#[derive(Debug, Clone)]
pub struct Field {
    pub name: String,
    pub java_type: String,
    pub modifiers: Vec<String>,
}

/// A method; a constructor is named `<init>` and returns its class.
#[derive(Debug, Clone)]
pub struct Method {
    pub name: String,
    pub params: Vec<Param>,
    pub return_type: String,
    pub modifiers: Vec<String>,
}

/// A method parameter.
#[derive(Debug, Clone)]
pub struct Param {
    pub name: String,
    pub java_type: String,
}

/// A type declaration with its members.
#[derive(Debug, Clone)]
pub struct JavaType {
    pub package: String,
    pub qualified_name: String,
    pub kind: TypeKind,
    pub modifiers: Vec<String>,
    pub extends: Option<String>,
    pub implements: Vec<String>,
    pub fields: Vec<Field>,
    pub methods: Vec<Method>,
    pub file: String,
}

/// The index of a source tree.
#[derive(Debug)]
pub struct Index {
    pub source_version: String,
    pub file_count: usize,
    pub types: Vec<JavaType>,
}

pub struct ParamModel {
    pub name: Seq<char>,
    pub java_type: Seq<char>,
}

pub struct FieldModel {
    pub name: Seq<char>,
    pub java_type: Seq<char>,
    pub modifiers: Seq<Seq<char>>,
}

pub struct MethodModel {
    pub name: Seq<char>,
    pub params: Seq<ParamModel>,
    pub return_type: Seq<char>,
    pub modifiers: Seq<Seq<char>>,
}

pub struct JavaTypeModel {
    pub package: Seq<char>,
    pub qualified_name: Seq<char>,
    pub kind: TypeKind,
    pub modifiers: Seq<Seq<char>>,
    pub extends: Option<Seq<char>>,
    pub implements: Seq<Seq<char>>,
    pub fields: Seq<FieldModel>,
    pub methods: Seq<MethodModel>,
    pub file: Seq<char>,
}

pub struct IndexModel {
    pub source_version: Seq<char>,
    pub file_count: nat,
    pub types: Seq<JavaTypeModel>,
}

pub open spec fn param_views(v: Seq<Param>) -> Seq<ParamModel> {
    v.map_values(|p: Param| p@)
}

pub open spec fn field_views(v: Seq<Field>) -> Seq<FieldModel> {
    v.map_values(|f: Field| f@)
}

pub open spec fn method_views(v: Seq<Method>) -> Seq<MethodModel> {
    v.map_values(|m: Method| m@)
}

pub open spec fn type_views(v: Seq<JavaType>) -> Seq<JavaTypeModel> {
    v.map_values(|t: JavaType| t@)
}

/// The text of an optional string.
pub open spec fn opt_text(o: Option<String>) -> Option<Seq<char>> {
    match o {
        Some(s) => Some(s@),
        None => None,
    }
}

impl View for Param {
    type V = ParamModel;

    open spec fn view(&self) -> ParamModel {
        ParamModel { name: self.name@, java_type: self.java_type@ }
    }
}

impl View for Field {
    type V = FieldModel;

    open spec fn view(&self) -> FieldModel {
        FieldModel {
            name: self.name@,
            java_type: self.java_type@,
            modifiers: texts(self.modifiers@),
        }
    }
}

impl View for Method {
    type V = MethodModel;

    open spec fn view(&self) -> MethodModel {
        MethodModel {
            name: self.name@,
            params: param_views(self.params@),
            return_type: self.return_type@,
            modifiers: texts(self.modifiers@),
        }
    }
}

impl View for JavaType {
    type V = JavaTypeModel;

    open spec fn view(&self) -> JavaTypeModel {
        JavaTypeModel {
            package: self.package@,
            qualified_name: self.qualified_name@,
            kind: self.kind,
            modifiers: texts(self.modifiers@),
            extends: opt_text(self.extends),
            implements: texts(self.implements@),
            fields: field_views(self.fields@),
            methods: method_views(self.methods@),
            file: self.file@,
        }
    }
}

impl View for Index {
    type V = IndexModel;

    open spec fn view(&self) -> IndexModel {
        IndexModel {
            source_version: self.source_version@,
            file_count: self.file_count as nat,
            types: type_views(self.types@),
        }
    }
}

} // verus!
