use vstd::prelude::*;
use crate::json_parse::JsonValue;

verus! {

/// A named value, as an object hands it back.
pub struct JsonField {
    pub name: String,
    pub value: JsonValue,
}

impl JsonField {
    /// The field `name` with `value`.
    pub fn new(name: String, value: JsonValue) -> (r: Self)
        ensures
            r.name == name,
            r.value == value,
    {
        Self { name, value }
    }
}

/// A JSON object: fields in the order they were added, no name twice.
pub struct JsonObject {
    names: Vec<String>,
    values: Vec<JsonValue>,
}

impl JsonObject {
    /// The field names, in order.
    pub closed spec fn spec_names(&self) -> Seq<Seq<char>> {
        self.names@.map_values(|n: String| n@)
    }

    /// The field values, in the order of their names.
    pub closed spec fn spec_values(&self) -> Seq<JsonValue> {
        self.values@
    }

    pub closed spec fn wf(&self) -> bool {
        &&& self.names@.len() == self.values@.len()
        &&& self.spec_names().no_duplicates()
    }

    /// An object used through its methods has one value per name and no name twice.
    pub proof fn lemma_names_distinct(&self)
        requires
            self.wf(),
        ensures
            self.spec_names().len() == self.spec_values().len(),
            self.spec_names().no_duplicates(),
    {
    }

    /// The object with no fields.
    pub fn new() -> (r: Self)
        ensures
            r.wf(),
            r.spec_names() == Seq::<Seq<char>>::empty(),
            r.spec_values() == Seq::<JsonValue>::empty(),
    {
        let r = Self { names: Vec::new(), values: Vec::new() };
        assert(r.spec_names() =~= Seq::<Seq<char>>::empty());
        r
    }

    fn position(&self, name: &String) -> (r: Option<usize>)
        requires
            self.wf(),
        ensures
            match r {
                Some(i) => i < self.spec_names().len() && self.spec_names()[i as int] == name@,
                None => !self.spec_names().contains(name@),
            },
    {
        let mut i: usize = 0;
        while i < self.names.len()
            invariant
                self.wf(),
                i <= self.names@.len(),
                forall|k: int| 0 <= k < i ==> self.spec_names()[k] != name@,
            decreases self.names@.len() - i,
        {
            if self.names[i] == *name {
                return Some(i);
            }
            i += 1;
        }
        None
    }

    /// Adds the field `name` with `value` at the end, where no field has that name;
    /// hands the field back, and changes nothing, where one has.
    pub fn push_field(&mut self, name: String, value: JsonValue) -> (r: Result<(), JsonField>)
        requires
            old(self).wf(),
        ensures
            final(self).wf(),
            old(self).spec_names().contains(name@) ==> r == Err::<(), JsonField>(
                JsonField { name, value },
            ) && final(self).spec_names() == old(self).spec_names() && final(self).spec_values()
                == old(self).spec_values(),
            !old(self).spec_names().contains(name@) ==> r is Ok && final(self).spec_names()
                == old(self).spec_names().push(name@) && final(self).spec_values() == old(
                self,
            ).spec_values().push(value),
    {
        if self.position(&name).is_some() {
            return Err(JsonField { name, value });
        }
        let ghost before = self.spec_names();
        let ghost view = name@;
        self.names.push(name);
        self.values.push(value);
        assert(self.spec_names() =~= before.push(view));
        Ok(())
    }

    /// The object with the field `name` and `value` added, as `push_field` adds it; where
    /// the name is taken, the object unchanged and the field.
    pub fn with_field(self, name: String, value: JsonValue) -> (r: Result<Self, (Self, JsonField)>)
        requires
            self.wf(),
        ensures
            self.spec_names().contains(name@) ==> (r matches Err((o, f)) && o.wf()
                && o.spec_names() == self.spec_names() && o.spec_values() == self.spec_values()
                && f == (JsonField { name, value })),
            !self.spec_names().contains(name@) ==> (r matches Ok(o) && o.wf() && o.spec_names()
                == self.spec_names().push(name@) && o.spec_values() == self.spec_values().push(
                value,
            )),
    {
        let mut o = self;
        match o.push_field(name, value) {
            Ok(()) => Ok(o),
            Err(f) => Err((o, f)),
        }
    }

    /// The field names, in order.
    pub fn field_names(&self) -> (r: &[String])
        ensures
            r@.map_values(|n: String| n@) == self.spec_names(),
    {
        self.names.as_slice()
    }

    /// The value of the field `name`, if there is one.
    pub fn get_value(&self, name: &str) -> (r: Option<&JsonValue>)
        requires
            self.wf(),
        ensures
            self.spec_names().contains(name@) ==> exists|i: int|
                0 <= i < self.spec_names().len() && self.spec_names()[i] == name@ && r == Some(
                    &self.spec_values()[i],
                ),
            !self.spec_names().contains(name@) ==> r is None,
    {
        let key = name.to_owned();
        match self.position(&key) {
            Some(i) => Some(&self.values[i]),
            None => None,
        }
    }

    /// The fields, in order, each with its name.
    pub fn into_fields(self) -> (r: Vec<JsonField>)
        requires
            self.wf(),
        ensures
            r@.len() == self.spec_names().len(),
            forall|i: int|
                0 <= i < r@.len() ==> (#[trigger] r@[i]).name@ == self.spec_names()[i]
                    && r@[i].value == self.spec_values()[i],
    {
        let ghost names = self.spec_names();
        let ghost values = self.spec_values();
        let mut ns = self.names;
        let mut vs = self.values;
        let mut out: Vec<JsonField> = Vec::new();
        while ns.len() > 0
            invariant
                ns@.len() == vs@.len(),
                out@.len() + ns@.len() == names.len(),
                names.len() == values.len(),
                forall|i: int|
                    0 <= i < out@.len() ==> (#[trigger] out@[i]).name@ == names[names.len() - 1 - i]
                        && out@[i].value == values[values.len() - 1 - i],
                forall|i: int| 0 <= i < ns@.len() ==> #[trigger] ns@[i]@ == names[i],
                forall|i: int| 0 <= i < vs@.len() ==> #[trigger] vs@[i] == values[i],
            decreases ns@.len(),
        {
            let n = ns.pop().unwrap();
            let v = vs.pop().unwrap();
            out.push(JsonField { name: n, value: v });
        }
        let mut r: Vec<JsonField> = Vec::new();
        while out.len() > 0
            invariant
                out@.len() + r@.len() == names.len(),
                names.len() == values.len(),
                forall|i: int|
                    0 <= i < out@.len() ==> (#[trigger] out@[i]).name@ == names[names.len() - 1 - i]
                        && out@[i].value == values[values.len() - 1 - i],
                forall|i: int|
                    0 <= i < r@.len() ==> (#[trigger] r@[i]).name@ == names[i] && r@[i].value
                        == values[i],
            decreases out@.len(),
        {
            let f = out.pop().unwrap();
            r.push(f);
        }
        r
    }

    /// The object as a JSON value.
    pub fn into_value(self) -> (r: JsonValue)
        requires
            self.wf(),
        ensures
            r matches JsonValue::Object(v) && v@.len() == self.spec_names().len() && forall|i: int|
                0 <= i < v@.len() ==> (#[trigger] v@[i]).0@ == self.spec_names()[i] && v@[i].1
                    == self.spec_values()[i],
    {
        let fields = self.into_fields();
        let mut v: Vec<(String, JsonValue)> = Vec::new();
        let ghost n = fields@.len();
        let mut fs = fields;
        let mut rev: Vec<JsonField> = Vec::new();
        while fs.len() > 0
            invariant
                fs@.len() + rev@.len() == n,
                forall|i: int| 0 <= i < fs@.len() ==> #[trigger] fs@[i] == fields@[i],
                forall|i: int| 0 <= i < rev@.len() ==> #[trigger] rev@[i] == fields@[n - 1 - i],
            decreases fs@.len(),
        {
            let f = fs.pop().unwrap();
            rev.push(f);
        }
        while rev.len() > 0
            invariant
                rev@.len() + v@.len() == n,
                forall|i: int| 0 <= i < rev@.len() ==> #[trigger] rev@[i] == fields@[n - 1 - i],
                forall|i: int|
                    0 <= i < v@.len() ==> (#[trigger] v@[i]).0 == fields@[i].name && v@[i].1
                        == fields@[i].value,
            decreases rev@.len(),
        {
            let f = rev.pop().unwrap();
            v.push((f.name, f.value));
        }
        JsonValue::Object(v)
    }
}

} // verus!
