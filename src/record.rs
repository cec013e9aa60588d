use vstd::prelude::*;

verus! {

/// The abstract value of a record's field list: (name, value) pairs in order.
pub type FieldsView = Seq<(Seq<char>, Seq<char>)>;

/// A record: an identifier and an ordered list of named string fields.
#[derive(Debug)]
pub struct Record {
    pub id: u32,
    pub fields: Vec<(String, String)>,
}

/// The abstract value of a record.
pub struct RecordView {
    pub id: u32,
    pub fields: FieldsView,
}

pub open spec fn fields_view(fs: Seq<(String, String)>) -> FieldsView {
    fs.map_values(|p: (String, String)| (p.0@, p.1@))
}

/// No field before position `i` is named `name`.
pub open spec fn no_name_before(fs: FieldsView, name: Seq<char>, i: int) -> bool {
    forall|j: int| 0 <= j < i ==> #[trigger] fs[j].0 != name
}

/// `i` is the position of the first field named `name`.
pub open spec fn first_named(fs: FieldsView, name: Seq<char>, i: int) -> bool {
    0 <= i < fs.len() && fs[i].0 == name && no_name_before(fs, name, i)
}

/// The field list after setting `name` to `value`: the first field with that
/// name is updated, or the pair is appended when there is none.
pub open spec fn put_spec(fs: FieldsView, name: Seq<char>, value: Seq<char>) -> FieldsView {
    if exists|i: int| first_named(fs, name, i) {
        let i = choose|i: int| first_named(fs, name, i);
        fs.update(i, (name, value))
    } else {
        fs.push((name, value))
    }
}

proof fn lemma_first_named_unique(fs: FieldsView, name: Seq<char>, i: int, k: int)
    requires
        first_named(fs, name, i),
        first_named(fs, name, k),
    ensures
        i == k,
{
    if i < k {
        assert(fs[i].0 != name);
    } else if k < i {
        assert(fs[k].0 != name);
    }
}

impl View for Record {
    type V = RecordView;

    open spec fn view(&self) -> RecordView {
        RecordView { id: self.id, fields: fields_view(self.fields@) }
    }
}

impl Record {
    pub fn new(id: u32, fields: Vec<(String, String)>) -> (r: Record)
        ensures
            r.id == id,
            r.fields@ == fields@,
    {
        Record { id, fields }
    }

    /// The value of the first field named `field_name`, if any.
    pub fn get_field(&self, field_name: &str) -> (r: Option<&String>)
        ensures
            match r {
                Some(v) => exists|i: int|
                    first_named(self@.fields, field_name@, i) && #[trigger] self@.fields[i].1 == v@,
                None => forall|i: int|
                    0 <= i < self@.fields.len() ==> #[trigger] self@.fields[i].0 != field_name@,
            },
    {
        let key: String = field_name.to_owned();
        let mut i: usize = 0;
        while i < self.fields.len()
            invariant
                i <= self.fields.len(),
                key@ == field_name@,
                no_name_before(self@.fields, field_name@, i as int),
            decreases self.fields.len() - i,
        {
            if self.fields[i].0 == key {
                assert(self@.fields[i as int].1 == self.fields[i as int].1@);
                return Some(&self.fields[i].1);
            }
            i += 1;
        }
        None
    }

    /// Sets the first field named `field_name` to `field_value`, or appends the
    /// pair when no field has that name.
    pub fn put_field(&mut self, field_name: &str, field_value: &str)
        ensures
            final(self).id == old(self).id,
            final(self)@.fields == put_spec(old(self)@.fields, field_name@, field_value@),
    {
        let key: String = field_name.to_owned();
        let value: String = field_value.to_owned();
        let ghost fs = old(self)@.fields;
        let mut i: usize = 0;
        while i < self.fields.len()
            invariant
                i <= self.fields.len(),
                self.fields@ == old(self).fields@,
                self.id == old(self).id,
                fs == fields_view(self.fields@),
                key@ == field_name@,
                value@ == field_value@,
                no_name_before(fs, field_name@, i as int),
            decreases self.fields.len() - i,
        {
            if self.fields[i].0 == key {
                proof {
                    assert(first_named(fs, field_name@, i as int));
                    let k = choose|k: int| first_named(fs, field_name@, k);
                    lemma_first_named_unique(fs, field_name@, i as int, k);
                }
                self.fields.set(i, (key, value));
                assert(fields_view(self.fields@) =~= fs.update(i as int, (field_name@, field_value@)));
                return;
            }
            i += 1;
        }
        proof {
            if exists|k: int| first_named(fs, field_name@, k) {
                let k = choose|k: int| first_named(fs, field_name@, k);
                assert(fs[k].0 != field_name@);
            }
        }
        self.fields.push((key, value));
        assert(fields_view(self.fields@) =~= fs.push((field_name@, field_value@)));
    }
}

} // verus!
