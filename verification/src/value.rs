//! The type-erasure layer: values of several types behind one representation,
//! and typed views of them that fail when the type does not match.

use vstd::prelude::*;
use crate::error::ExecutionError;

verus! {

/// The types a stored value can have.
#[derive(Debug, PartialEq, Eq, Clone, Copy, Structural)]
pub enum TypeTag {
    Unit,
    Bool,
    Char,
    I32,
    I64,
    U64,
    Usize,
    Text,
    List,
}

/// One value of one of the storable types.
#[derive(Debug)]
pub enum ErasedValue {
    Unit(()),
    Bool(bool),
    Char(char),
    I32(i32),
    I64(i64),
    U64(u64),
    Usize(usize),
    Text(String),
    List(Vec<i32>),
}

/// A type that can be stored in an [`ErasedValue`] and viewed in place.
pub trait Erasable: Sized + 'static {
    /// The tag of the values that hold this type.
    spec fn tag() -> TypeTag;

    /// The stored form of a value.
    spec fn erased(self) -> ErasedValue;

    /// Every value of the type is stored under the type's tag.
    proof fn lemma_tag(self)
        ensures
            self.erased().tag() == Self::tag(),
    ;

    fn type_tag() -> (t: TypeTag)
        ensures
            t == Self::tag(),
    ;

    fn wrap(self) -> (e: ErasedValue)
        ensures
            e == self.erased(),
            e.tag() == Self::tag(),
    ;

    fn peek(slot: &ErasedValue) -> (r: Option<&Self>)
        ensures
            r is Some <==> slot.tag() == Self::tag(),
            r is Some ==> r->0.erased() == *slot,
    ;

    fn peek_mut(slot: &mut ErasedValue) -> (r: Option<&mut Self>)
        ensures
            r is Some <==> old(slot).tag() == Self::tag(),
            r is Some ==> r->0.erased() == *old(slot) && *final(slot) == final(r->0).erased(),
            r is None ==> *final(slot) == *old(slot),
    ;
}

impl ErasedValue {
    /// The type of the value held.
    pub open spec fn tag(&self) -> TypeTag {
        match self {
            ErasedValue::Unit(_) => TypeTag::Unit,
            ErasedValue::Bool(_) => TypeTag::Bool,
            ErasedValue::Char(_) => TypeTag::Char,
            ErasedValue::I32(_) => TypeTag::I32,
            ErasedValue::I64(_) => TypeTag::I64,
            ErasedValue::U64(_) => TypeTag::U64,
            ErasedValue::Usize(_) => TypeTag::Usize,
            ErasedValue::Text(_) => TypeTag::Text,
            ErasedValue::List(_) => TypeTag::List,
        }
    }

    pub fn type_tag(&self) -> (t: TypeTag)
        ensures
            t == self.tag(),
    {
        match self {
            ErasedValue::Unit(_) => TypeTag::Unit,
            ErasedValue::Bool(_) => TypeTag::Bool,
            ErasedValue::Char(_) => TypeTag::Char,
            ErasedValue::I32(_) => TypeTag::I32,
            ErasedValue::I64(_) => TypeTag::I64,
            ErasedValue::U64(_) => TypeTag::U64,
            ErasedValue::Usize(_) => TypeTag::Usize,
            ErasedValue::Text(_) => TypeTag::Text,
            ErasedValue::List(_) => TypeTag::List,
        }
    }

    /// Stores a value, forgetting its static type.
    pub fn store<T: Erasable>(value: T) -> (e: ErasedValue)
        ensures
            e == value.erased(),
            e.tag() == T::tag(),
    {
        value.wrap()
    }

    /// A shared view of the value as a `T`; fails when it holds another type.
    pub fn read_as<T: Erasable>(&self) -> (r: Result<&T, ExecutionError>)
        ensures
            self.tag() == T::tag() ==> r is Ok && r->Ok_0.erased() == *self,
            self.tag() != T::tag() ==> r == Err::<&T, ExecutionError>(ExecutionError::TypeMismatch),
    {
        match T::peek(self) {
            Some(v) => Ok(v),
            None => Err(ExecutionError::TypeMismatch),
        }
    }

    /// An exclusive view of the value as a `T`; what is written through it
    /// is what the value holds afterwards. Fails when it holds another type.
    pub fn write_as<T: Erasable>(&mut self) -> (r: Result<&mut T, ExecutionError>)
        ensures
            old(self).tag() == T::tag() ==> r is Ok && r->Ok_0.erased() == *old(self)
                && *final(self) == final(r->Ok_0).erased(),
            old(self).tag() != T::tag() ==> r is Err && r->Err_0 == ExecutionError::TypeMismatch
                && *final(self) == *old(self),
    {
        match T::peek_mut(self) {
            Some(v) => Ok(v),
            None => Err(ExecutionError::TypeMismatch),
        }
    }
}

impl Erasable for () {
    open spec fn tag() -> TypeTag {
        TypeTag::Unit
    }

    open spec fn erased(self) -> ErasedValue {
        ErasedValue::Unit(())
    }

    proof fn lemma_tag(self) {
    }

    fn type_tag() -> (t: TypeTag) {
        TypeTag::Unit
    }

    fn wrap(self) -> (e: ErasedValue) {
        ErasedValue::Unit(())
    }

    fn peek(slot: &ErasedValue) -> (r: Option<&Self>) {
        match slot {
            ErasedValue::Unit(v) => Some(v),
            _ => None,
        }
    }

    fn peek_mut(slot: &mut ErasedValue) -> (r: Option<&mut Self>) {
        match slot {
            ErasedValue::Unit(v) => Some(v),
            _ => None,
        }
    }
}

impl Erasable for i32 {
    open spec fn tag() -> TypeTag {
        TypeTag::I32
    }

    open spec fn erased(self) -> ErasedValue {
        ErasedValue::I32(self)
    }

    proof fn lemma_tag(self) {
    }

    fn type_tag() -> (t: TypeTag) {
        TypeTag::I32
    }

    fn wrap(self) -> (e: ErasedValue) {
        ErasedValue::I32(self)
    }

    fn peek(slot: &ErasedValue) -> (r: Option<&Self>) {
        match slot {
            ErasedValue::I32(v) => Some(v),
            _ => None,
        }
    }

    fn peek_mut(slot: &mut ErasedValue) -> (r: Option<&mut Self>) {
        match slot {
            ErasedValue::I32(v) => Some(v),
            _ => None,
        }
    }
}

impl Erasable for bool {
    open spec fn tag() -> TypeTag {
        TypeTag::Bool
    }

    open spec fn erased(self) -> ErasedValue {
        ErasedValue::Bool(self)
    }

    proof fn lemma_tag(self) {
    }

    fn type_tag() -> (t: TypeTag) {
        TypeTag::Bool
    }

    fn wrap(self) -> (e: ErasedValue) {
        ErasedValue::Bool(self)
    }

    fn peek(slot: &ErasedValue) -> (r: Option<&Self>) {
        match slot {
            ErasedValue::Bool(v) => Some(v),
            _ => None,
        }
    }

    fn peek_mut(slot: &mut ErasedValue) -> (r: Option<&mut Self>) {
        match slot {
            ErasedValue::Bool(v) => Some(v),
            _ => None,
        }
    }
}

impl Erasable for i64 {
    open spec fn tag() -> TypeTag {
        TypeTag::I64
    }

    open spec fn erased(self) -> ErasedValue {
        ErasedValue::I64(self)
    }

    proof fn lemma_tag(self) {
    }

    fn type_tag() -> (t: TypeTag) {
        TypeTag::I64
    }

    fn wrap(self) -> (e: ErasedValue) {
        ErasedValue::I64(self)
    }

    fn peek(slot: &ErasedValue) -> (r: Option<&Self>) {
        match slot {
            ErasedValue::I64(v) => Some(v),
            _ => None,
        }
    }

    fn peek_mut(slot: &mut ErasedValue) -> (r: Option<&mut Self>) {
        match slot {
            ErasedValue::I64(v) => Some(v),
            _ => None,
        }
    }
}

impl Erasable for String {
    open spec fn tag() -> TypeTag {
        TypeTag::Text
    }

    open spec fn erased(self) -> ErasedValue {
        ErasedValue::Text(self)
    }

    proof fn lemma_tag(self) {
    }

    fn type_tag() -> (t: TypeTag) {
        TypeTag::Text
    }

    fn wrap(self) -> (e: ErasedValue) {
        ErasedValue::Text(self)
    }

    fn peek(slot: &ErasedValue) -> (r: Option<&Self>) {
        match slot {
            ErasedValue::Text(v) => Some(v),
            _ => None,
        }
    }

    fn peek_mut(slot: &mut ErasedValue) -> (r: Option<&mut Self>) {
        match slot {
            ErasedValue::Text(v) => Some(v),
            _ => None,
        }
    }
}

impl Erasable for Vec<i32> {
    open spec fn tag() -> TypeTag {
        TypeTag::List
    }

    open spec fn erased(self) -> ErasedValue {
        ErasedValue::List(self)
    }

    proof fn lemma_tag(self) {
    }

    fn type_tag() -> (t: TypeTag) {
        TypeTag::List
    }

    fn wrap(self) -> (e: ErasedValue) {
        ErasedValue::List(self)
    }

    fn peek(slot: &ErasedValue) -> (r: Option<&Self>) {
        match slot {
            ErasedValue::List(v) => Some(v),
            _ => None,
        }
    }

    fn peek_mut(slot: &mut ErasedValue) -> (r: Option<&mut Self>) {
        match slot {
            ErasedValue::List(v) => Some(v),
            _ => None,
        }
    }
}

impl Erasable for char {
    open spec fn tag() -> TypeTag {
        TypeTag::Char
    }

    open spec fn erased(self) -> ErasedValue {
        ErasedValue::Char(self)
    }

    proof fn lemma_tag(self) {
    }

    fn type_tag() -> (t: TypeTag) {
        TypeTag::Char
    }

    fn wrap(self) -> (e: ErasedValue) {
        ErasedValue::Char(self)
    }

    fn peek(slot: &ErasedValue) -> (r: Option<&Self>) {
        match slot {
            ErasedValue::Char(v) => Some(v),
            _ => None,
        }
    }

    fn peek_mut(slot: &mut ErasedValue) -> (r: Option<&mut Self>) {
        match slot {
            ErasedValue::Char(v) => Some(v),
            _ => None,
        }
    }
}

impl Erasable for u64 {
    open spec fn tag() -> TypeTag {
        TypeTag::U64
    }

    open spec fn erased(self) -> ErasedValue {
        ErasedValue::U64(self)
    }

    proof fn lemma_tag(self) {
    }

    fn type_tag() -> (t: TypeTag) {
        TypeTag::U64
    }

    fn wrap(self) -> (e: ErasedValue) {
        ErasedValue::U64(self)
    }

    fn peek(slot: &ErasedValue) -> (r: Option<&Self>) {
        match slot {
            ErasedValue::U64(v) => Some(v),
            _ => None,
        }
    }

    fn peek_mut(slot: &mut ErasedValue) -> (r: Option<&mut Self>) {
        match slot {
            ErasedValue::U64(v) => Some(v),
            _ => None,
        }
    }
}

impl Erasable for usize {
    open spec fn tag() -> TypeTag {
        TypeTag::Usize
    }

    open spec fn erased(self) -> ErasedValue {
        ErasedValue::Usize(self)
    }

    proof fn lemma_tag(self) {
    }

    fn type_tag() -> (t: TypeTag) {
        TypeTag::Usize
    }

    fn wrap(self) -> (e: ErasedValue) {
        ErasedValue::Usize(self)
    }

    fn peek(slot: &ErasedValue) -> (r: Option<&Self>) {
        match slot {
            ErasedValue::Usize(v) => Some(v),
            _ => None,
        }
    }

    fn peek_mut(slot: &mut ErasedValue) -> (r: Option<&mut Self>) {
        match slot {
            ErasedValue::Usize(v) => Some(v),
            _ => None,
        }
    }
}

} // verus!
