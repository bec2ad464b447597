//! Records and the field-level prototype merge rule.
//!
//! A [`Record`] is the user payload stored in a catalog: an ordered list of
//! field [`Value`]s.  When a prototype record changes, every derived record
//! integrates the change field by field: a field that still matches the old
//! prototype value adopts the new prototype value, while a locally
//! overridden field is kept.  [`merge_field`] is that rule for one field and
//! [`Record::proto_update`] applies it to a whole record.

use vstd::prelude::*;

verus! {

/// Dense index identifying a record within one catalog.  Stable for the
/// catalog's lifetime; ids are never reused and never removed.
#[derive(Clone, Copy, Debug, PartialEq, Eq, Hash, Structural)]
pub struct RecordId(pub usize);

/// Mathematical value of one record field.
pub enum ValueModel {
    Int(int),
    Text(Seq<char>),
}

/// One record field: an integer or a text value.
#[derive(Debug, PartialEq, Eq)]
pub enum Value {
    Int(i64),
    Text(String),
}

impl View for Value {
    type V = ValueModel;

    open spec fn view(&self) -> ValueModel {
        match self {
            Value::Int(i) => ValueModel::Int(*i as int),
            Value::Text(s) => ValueModel::Text(s@),
        }
    }
}

impl Clone for Value {
    fn clone(&self) -> (res: Self)
        ensures
            res@ == self@,
    {
        match self {
            Value::Int(i) => Value::Int(*i),
            Value::Text(s) => Value::Text(s.clone()),
        }
    }
}

/// Value equality on fields, the sole override-detection mechanism of the
/// prototype merge rule.
pub fn value_eq(a: &Value, b: &Value) -> (r: bool)
    ensures
        r == (a@ == b@),
{
    match (a, b) {
        (Value::Int(x), Value::Int(y)) => x == y,
        (Value::Text(x), Value::Text(y)) => x.eq(y),
        _ => false,
    }
}

/// The merge rule for one field: if the instance's field still equals the
/// old prototype's field, adopt the new prototype's field; otherwise the
/// instance's local value wins.
pub open spec fn merge_field_model(
    instance: ValueModel,
    old_prototype: ValueModel,
    new_prototype: ValueModel,
) -> ValueModel {
    if instance == old_prototype {
        new_prototype
    } else {
        instance
    }
}

/// Field-wise merge of a whole record.  Positions that the prototypes do not
/// have keep the instance's value.
pub open spec fn merged_fields(
    instance: Seq<ValueModel>,
    old_prototype: Seq<ValueModel>,
    new_prototype: Seq<ValueModel>,
) -> Seq<ValueModel> {
    Seq::new(
        instance.len(),
        |k: int|
            if k < old_prototype.len() && k < new_prototype.len() {
                merge_field_model(instance[k], old_prototype[k], new_prototype[k])
            } else {
                instance[k]
            },
    )
}

/// Merge rule for one field, as executable code: returns the instance's
/// field unless it equals the old prototype's field, in which case the new
/// prototype's field is adopted.
pub fn merge_field<'a>(
    instance_field: &'a Value,
    old_prototype_field: &'a Value,
    new_prototype_field: &'a Value,
) -> (r: &'a Value)
    ensures
        r@ == merge_field_model(instance_field@, old_prototype_field@, new_prototype_field@),
{
    if !value_eq(old_prototype_field, instance_field) {
        instance_field
    } else {
        new_prototype_field
    }
}

/// A user record: the ordered fields of one catalog entry.
#[derive(Debug, PartialEq, Eq)]
pub struct Record {
    pub fields: Vec<Value>,
}

impl View for Record {
    type V = Seq<ValueModel>;

    open spec fn view(&self) -> Seq<ValueModel> {
        self.fields@.map_values(|v: Value| v@)
    }
}

impl Clone for Record {
    fn clone(&self) -> (res: Self)
        ensures
            res@ == self@,
    {
        let mut fields: Vec<Value> = Vec::new();
        let mut k: usize = 0;
        while k < self.fields.len()
            invariant
                k <= self.fields.len(),
                fields@.len() == k,
                forall|i: int| 0 <= i < k ==> fields@[i]@ == self@[i],
            decreases self.fields.len() - k,
        {
            fields.push(self.fields[k].clone());
            k += 1;
        }
        let res = Record { fields };
        proof {
            assert(res@ =~= self@);
        }
        res
    }
}

impl Record {
    /// A record with the given fields.
    pub fn new(fields: Vec<Value>) -> (r: Record)
        ensures
            r@ == fields@.map_values(|v: Value| v@),
    {
        Record { fields }
    }

    /// Integrates a prototype change into this record, field by field,
    /// preserving locally overridden fields.  A pure function of its three
    /// arguments.
    pub fn proto_update(&self, old_prototype: &Record, new_prototype: &Record) -> (r: Record)
        ensures
            r@ == merged_fields(self@, old_prototype@, new_prototype@),
    {
        let mut fields: Vec<Value> = Vec::new();
        let mut k: usize = 0;
        while k < self.fields.len()
            invariant
                k <= self.fields.len(),
                fields@.len() == k,
                forall|i: int| 0 <= i < k ==> fields@[i]@ == merged_fields(
                    self@,
                    old_prototype@,
                    new_prototype@,
                )[i],
            decreases self.fields.len() - k,
        {
            if k < old_prototype.fields.len() && k < new_prototype.fields.len() {
                fields.push(
                    merge_field(
                        &self.fields[k],
                        &old_prototype.fields[k],
                        &new_prototype.fields[k],
                    ).clone(),
                );
            } else {
                fields.push(self.fields[k].clone());
            }
            k += 1;
        }
        let r = Record { fields };
        proof {
            assert(r@ =~= merged_fields(self@, old_prototype@, new_prototype@));
        }
        r
    }
}

/// Scoped witness of the exclusive lock on one record, carrying the record
/// value observed at lock-acquisition time.  Obtained from a catalog's
/// `lock` and surrendered to its `unlock`.
pub struct Locked {
    pub id: RecordId,
    pub value: Record,
}

} // verus!
