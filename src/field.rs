//! Schema field: a named, typed column, with the fields nested under it.

use vstd::prelude::*;

verus! {

/// How the values of a field are laid out on disk.
#[derive(Clone, Copy, Debug, PartialEq, Eq, Structural)]
pub enum Encoding {
    Plain,
    VarBinary,
    Dictionary,
    RLE,
}

/// Where the value array of a dictionary field is stored.
#[derive(Clone, Copy, Debug, PartialEq, Eq, Structural)]
pub struct Dictionary {
    pub offset: usize,
    pub length: usize,
}

/// What makes two fields impossible to intersect.
#[derive(Clone, Copy, Debug, PartialEq, Eq, Structural)]
pub enum SchemaError {
    /// The two fields have different names.
    NameMismatch,
    /// The two fields have different data types.
    TypeMismatch,
}

/// A schema field.
#[derive(Debug)]
pub struct Field {
    pub name: String,
    pub id: i32,
    pub parent_id: i32,
    /// The logical type, such as `int32`, `struct`, `list` or `list.struct`.
    pub logical_type: String,
    pub extension_name: String,
    pub encoding: Option<Encoding>,
    pub nullable: bool,
    pub children: Vec<Field>,
    pub dictionary: Option<Dictionary>,
}

/// A field as a mathematical value.
pub struct FieldModel {
    pub name: Seq<char>,
    pub id: int,
    pub parent_id: int,
    pub logical_type: Seq<char>,
    pub extension_name: Seq<char>,
    pub encoding: Option<Encoding>,
    pub nullable: bool,
    pub children: Seq<FieldModel>,
    pub dictionary: Option<Dictionary>,
}

/// The model of a field.
pub open spec fn model_of(f: &Field) -> FieldModel
    decreases f,
{
    FieldModel {
        name: f.name@,
        id: f.id as int,
        parent_id: f.parent_id as int,
        logical_type: f.logical_type@,
        extension_name: f.extension_name@,
        encoding: f.encoding,
        nullable: f.nullable,
        children: Seq::new(
            f.children.len() as nat,
            |i: int|
                if 0 <= i < f.children.len() {
                    model_of(&f.children@[i])
                } else {
                    arbitrary()
                },
        ),
        dictionary: f.dictionary,
    }
}

impl View for Field {
    type V = FieldModel;

    open spec fn view(&self) -> FieldModel {
        model_of(self)
    }
}

/// The models of a sequence of fields.
pub open spec fn models(s: Seq<Field>) -> Seq<FieldModel> {
    Seq::new(s.len(), |i: int| s[i]@)
}

broadcast proof fn lemma_children_models(f: &Field)
    ensures
        #[trigger] model_of(f).children == models(f.children@),
{
    assert(f@.children.len() == f.children.len());
    assert forall|i: int| 0 <= i < f.children.len() implies #[trigger] f@.children[i] == f.children@[i]@ by {}
    assert(f@.children =~= models(f.children@));
}

/// `i` is the position of the first field of `s` named `name`.
pub open spec fn is_first_named(s: Seq<FieldModel>, name: Seq<char>, i: int) -> bool {
    &&& 0 <= i < s.len()
    &&& s[i].name == name
    &&& forall|j: int| 0 <= j < i ==> (#[trigger] s[j]).name != name
}

/// Position of the first field of `s` named `name`, if any.
pub open spec fn child_index(s: Seq<FieldModel>, name: Seq<char>) -> Option<int> {
    if exists|i: int| is_first_named(s, name, i) {
        Some(choose|i: int| is_first_named(s, name, i))
    } else {
        None
    }
}

proof fn lemma_child_index_found(s: Seq<FieldModel>, name: Seq<char>, i: int)
    requires
        is_first_named(s, name, i),
    ensures
        child_index(s, name) == Some(i),
{
    let c = choose|c: int| is_first_named(s, name, c);
    if c < i {
        assert(s[c].name != name);
    } else if c > i {
        assert(s[i].name != name);
    }
}

proof fn lemma_child_index_missing(s: Seq<FieldModel>, name: Seq<char>)
    requires
        forall|j: int| 0 <= j < s.len() ==> (#[trigger] s[j]).name != name,
    ensures
        child_index(s, name) is None,
{
}

/// Whether a string holds the characters of a `str`.
fn same_name(a: &String, b: &str) -> (r: bool)
    ensures
        r == (a@ == b@),
{
    let t = b.to_owned();
    *a == t
}

/// The logical type of a struct.
pub open spec fn is_struct_type(t: Seq<char>) -> bool {
    t == "struct"@
}

/// The logical type of a list or a large list.
pub open spec fn is_list_type(t: Seq<char>) -> bool {
    t == "list"@ || t == "list.struct"@ || t == "large_list"@ || t == "large_list.struct"@
}

/// The logical type of a field that holds other fields.
pub open spec fn is_nested_type(t: Seq<char>) -> bool {
    is_struct_type(t) || is_list_type(t)
}

fn is_struct(t: &String) -> (r: bool)
    ensures
        r == is_struct_type(t@),
{
    proof {
        reveal_strlit("struct");
    }
    same_name(t, "struct")
}

fn is_list(t: &String) -> (r: bool)
    ensures
        r == is_list_type(t@),
{
    proof {
        reveal_strlit("list");
        reveal_strlit("list.struct");
        reveal_strlit("large_list");
        reveal_strlit("large_list.struct");
    }
    same_name(t, "list") || same_name(t, "list.struct") || same_name(t, "large_list") || same_name(
        t,
        "large_list.struct",
    )
}

impl Field {
    /// A field with no id yet (`-1`), no parent, no encoding and no dictionary.
    pub fn new(name: &str, logical_type: &str, nullable: bool, children: Vec<Field>) -> (r: Field)
        ensures
            r@ == (FieldModel {
                name: name@,
                id: -1,
                parent_id: -1,
                logical_type: logical_type@,
                extension_name: Seq::empty(),
                encoding: None,
                nullable,
                children: models(children@),
                dictionary: None,
            }),
    {
        let r = Field {
            name: name.to_owned(),
            id: -1,
            parent_id: -1,
            logical_type: logical_type.to_owned(),
            extension_name: String::new(),
            encoding: None,
            nullable,
            children,
            dictionary: None,
        };
        proof {
            lemma_children_models(&r);
        }
        r
    }

    /// This field with its own attributes and the given children.
    fn with_children(&self, children: Vec<Field>) -> (r: Field)
        ensures
            r@ == (FieldModel { children: models(children@), ..self@ }),
    {
        let r = Field {
            name: self.name.clone(),
            id: self.id,
            parent_id: self.parent_id,
            logical_type: self.logical_type.clone(),
            extension_name: self.extension_name.clone(),
            encoding: self.encoding,
            nullable: self.nullable,
            children,
            dictionary: self.dictionary,
        };
        proof {
            lemma_children_models(&r);
        }
        r
    }

    /// A deep copy.
    pub fn duplicate(&self) -> (r: Field)
        ensures
            r@ == self@,
        decreases self,
    {
        let mut children: Vec<Field> = Vec::new();
        let mut i: usize = 0;
        while i < self.children.len()
            invariant
                i <= self.children.len(),
                children.len() == i,
                forall|j: int| 0 <= j < i ==> (#[trigger] children@[j])@ == self.children@[j]@,
            decreases self.children.len() - i,
        {
            let c = self.children[i].duplicate();
            children.push(c);
            i = i + 1;
        }
        let r = self.with_children(children);
        proof {
            lemma_children_models(self);
            assert(models(children@) =~= models(self.children@));
        }
        r
    }

    /// Position of the first child named `name`.
    fn find_child(&self, name: &str) -> (r: Option<usize>)
        ensures
            match r {
                Some(i) => i < self.children.len() && child_index(self@.children, name@) == Some(i as int),
                None => child_index(self@.children, name@) is None,
            },
    {
        proof {
            lemma_children_models(self);
        }
        let mut i: usize = 0;
        while i < self.children.len()
            invariant
                i <= self.children.len(),
                self@.children == models(self.children@),
                forall|j: int| 0 <= j < i ==> (#[trigger] self@.children[j]).name != name@,
            decreases self.children.len() - i,
        {
            if same_name(&self.children[i].name, name) {
                proof {
                    lemma_child_index_found(self@.children, name@, i as int);
                }
                return Some(i);
            }
            i = i + 1;
        }
        proof {
            lemma_child_index_missing(self@.children, name@);
        }
        None
    }

    /// The first child named `name`.
    pub fn child(&self, name: &str) -> (r: Option<&Field>)
        ensures
            match child_index(self@.children, name@) {
                Some(i) => r matches Some(c) && c@ == self@.children[i],
                None => r is None,
            },
    {
        proof {
            lemma_children_models(self);
        }
        match self.find_child(name) {
            Some(i) => Some(&self.children[i]),
            None => None,
        }
    }

    /// The first child named `name`, to change in place.
    pub fn child_mut(&mut self, name: &str) -> (r: Option<&mut Field>)
        ensures
            match child_index(old(self)@.children, name@) {
                Some(i) => r matches Some(c) && *c == old(self).children@[i]
                    && final(self).children@ == old(self).children@.update(i, *final(c))
                    && final(self).name == old(self).name && final(self).id == old(self).id,
                None => r is None && *final(self) == *old(self),
            },
    {
        match self.find_child(name) {
            Some(i) => Some(&mut self.children[i]),
            None => None,
        }
    }
}


/// The names of a path of field names.
pub open spec fn names_of(path: Seq<&str>) -> Seq<Seq<char>> {
    Seq::new(path.len(), |i: int| path[i]@)
}

/// The field reached from `m` by following `path`, one child name at a time.
pub open spec fn sub_field_spec(m: FieldModel, path: Seq<Seq<char>>) -> Option<FieldModel>
    decreases path.len(),
{
    if path.len() == 0 {
        Some(m)
    } else {
        match child_index(m.children, path[0]) {
            Some(i) => sub_field_spec(m.children[i], path.drop_first()),
            None => None,
        }
    }
}

/// `m` cut down to the branch that `path` names: the last field of the path
/// keeps all of its children; a name with no child ends the branch there.
pub open spec fn project_spec(m: FieldModel, path: Seq<Seq<char>>) -> FieldModel
    decreases path.len(),
{
    if path.len() == 0 {
        m
    } else {
        FieldModel {
            children: match child_index(m.children, path[0]) {
                Some(i) => seq![project_spec(m.children[i], path.drop_first())],
                None => Seq::empty(),
            },
            ..m
        }
    }
}

/// Two fields have the same data type: the same logical type and, for a
/// struct, children of the same names, nullability and types; for a list,
/// an item field of the same name, nullability and type.
pub open spec fn same_type(a: FieldModel, b: FieldModel) -> bool
    decreases a,
{
    &&& a.logical_type == b.logical_type
    &&& is_struct_type(a.logical_type) ==> {
        &&& a.children.len() == b.children.len()
        &&& forall|i: int|
            0 <= i < a.children.len() ==> {
                &&& (#[trigger] a.children[i]).name == b.children[i].name
                &&& a.children[i].nullable == b.children[i].nullable
                &&& same_type(a.children[i], b.children[i])
            }
    }
    &&& is_list_type(a.logical_type) ==> {
        &&& a.children.len() > 0
        &&& b.children.len() > 0
        &&& a.children[0].name == b.children[0].name
        &&& a.children[0].nullable == b.children[0].nullable
        &&& same_type(a.children[0], b.children[0])
    }
}

/// The intersection of two fields of the same name: for two structs, the
/// children that both have, each intersected; otherwise the first field,
/// if both have the same type.
pub open spec fn intersect_spec(a: FieldModel, b: FieldModel) -> Result<FieldModel, SchemaError>
    decreases a, 0nat,
{
    if a.name != b.name {
        Err(SchemaError::NameMismatch)
    } else if is_struct_type(a.logical_type) && is_struct_type(b.logical_type) {
        Ok(FieldModel { children: intersect_kids(a.children, b, a.children.len()), ..a })
    } else if !same_type(a, b) {
        Err(SchemaError::TypeMismatch)
    } else {
        Ok(a)
    }
}

/// The intersections of the first `n` fields of `s` with the children of
/// `b` of the same names, leaving out those that fail.
pub open spec fn intersect_kids(s: Seq<FieldModel>, b: FieldModel, n: nat) -> Seq<FieldModel>
    decreases s, n,
{
    if n == 0 || n > s.len() {
        Seq::empty()
    } else {
        let prev = intersect_kids(s, b, (n - 1) as nat);
        match child_index(b.children, s[n - 1].name) {
            Some(j) => match intersect_spec(s[n - 1], b.children[j]) {
                Ok(x) => prev.push(x),
                Err(_) => prev,
            },
            None => prev,
        }
    }
}

/// What is left of a nested field `a` once the fields of `b` are taken out:
/// `None` when `a` is not nested or nothing is left.
pub open spec fn exclude_spec(a: FieldModel, b: FieldModel) -> Option<FieldModel>
    decreases a, 0nat,
{
    if !is_nested_type(a.logical_type) {
        None
    } else {
        let kids = exclude_kids(a.children, b, a.children.len());
        if kids.len() == 0 {
            None
        } else {
            Some(FieldModel { children: kids, ..a })
        }
    }
}

/// The first `n` fields of `s`, each with the child of `b` of the same name
/// taken out; a field that `b` lacks stays whole.
pub open spec fn exclude_kids(s: Seq<FieldModel>, b: FieldModel, n: nat) -> Seq<FieldModel>
    decreases s, n,
{
    if n == 0 || n > s.len() {
        Seq::empty()
    } else {
        let prev = exclude_kids(s, b, (n - 1) as nat);
        match child_index(b.children, s[n - 1].name) {
            Some(j) => match exclude_spec(s[n - 1], b.children[j]) {
                Some(x) => prev.push(x),
                None => prev,
            },
            None => prev.push(s[n - 1]),
        }
    }
}

/// `a` with the children of `b` merged in.
pub open spec fn merge_spec(a: FieldModel, b: FieldModel) -> FieldModel
    decreases b, 0nat,
{
    FieldModel { children: merge_kids(a.children, b.children, b.children.len()), ..a }
}

/// `s` with the first `n` fields of `bs` merged in, one at a time: into the
/// first field of the same name, or appended when there is none.
pub open spec fn merge_kids(s: Seq<FieldModel>, bs: Seq<FieldModel>, n: nat) -> Seq<FieldModel>
    decreases bs, n,
{
    if n == 0 || n > bs.len() {
        s
    } else {
        let prev = merge_kids(s, bs, (n - 1) as nat);
        match child_index(prev, bs[n - 1].name) {
            Some(i) => prev.update(i, merge_spec(prev[i], bs[n - 1])),
            None => prev.push(bs[n - 1]),
        }
    }
}

/// The largest id in the tree of `m`.
pub open spec fn max_id_spec(m: FieldModel) -> int
    decreases m, 0nat,
{
    let k = kids_max_id(m.children, m.children.len());
    if m.id >= k {
        m.id
    } else {
        k
    }
}

/// The largest id in the trees of the first `n` fields of `s`, or -1.
pub open spec fn kids_max_id(s: Seq<FieldModel>, n: nat) -> int
    decreases s, n,
{
    if n == 0 || n > s.len() {
        -1
    } else {
        let a = kids_max_id(s, (n - 1) as nat);
        let b = max_id_spec(s[n - 1]);
        if a >= b {
            a
        } else {
            b
        }
    }
}

proof fn lemma_models_push(s: Seq<Field>, x: Field)
    ensures
        models(s.push(x)) == models(s).push(x@),
{
    assert(models(s.push(x)) =~= models(s).push(x@));
}

impl Field {
    /// Whether two fields are equal in every attribute, children included.
    pub fn same_as(&self, other: &Field) -> (r: bool)
        ensures
            r == (self@ == other@),
        decreases self,
    {
        proof {
            lemma_children_models(self);
            lemma_children_models(other);
        }
        let enc = match (self.encoding, other.encoding) {
            (None, None) => true,
            (Some(a), Some(b)) => a == b,
            _ => false,
        };
        let dict = match (self.dictionary, other.dictionary) {
            (None, None) => true,
            (Some(a), Some(b)) => a == b,
            _ => false,
        };
        if !(self.name == other.name) || !(self.logical_type == other.logical_type) || !(self.extension_name
            == other.extension_name) {
            return false;
        }
        if self.id != other.id || self.parent_id != other.parent_id || self.nullable != other.nullable {
            return false;
        }
        if !enc || !dict {
            return false;
        }
        if self.children.len() != other.children.len() {
            assert(self@.children.len() != other@.children.len());
            return false;
        }
        let mut i: usize = 0;
        while i < self.children.len()
            invariant
                i <= self.children.len(),
                self.children.len() == other.children.len(),
                forall|j: int| 0 <= j < i ==> (#[trigger] self.children@[j])@ == other.children@[j]@,
            decreases self.children.len() - i,
        {
            if !self.children[i].same_as(&other.children[i]) {
                assert(self@.children[i as int] != other@.children[i as int]);
                return false;
            }
            i = i + 1;
        }
        assert(self@.children =~= other@.children);
        true
    }

    /// The field reached by following `path_components`, one child name at a
    /// time; the field itself for an empty path.
    pub fn sub_field(&self, path_components: &[&str]) -> (r: Option<&Field>)
        ensures
            match r {
                Some(f) => sub_field_spec(self@, names_of(path_components@)) == Some(f@),
                None => sub_field_spec(self@, names_of(path_components@)) is None,
            },
    {
        let ghost names = names_of(path_components@);
        assert(names.skip(0) =~= names);
        let mut cur: &Field = self;
        let mut k: usize = 0;
        while k < path_components.len()
            invariant
                k <= path_components.len(),
                names == names_of(path_components@),
                sub_field_spec(self@, names) == sub_field_spec(cur@, names.skip(k as int)),
            decreases path_components.len() - k,
        {
            proof {
                lemma_children_models(cur);
                assert(names.skip(k as int)[0] == path_components@[k as int]@);
                assert(names.skip(k as int).drop_first() =~= names.skip(k + 1));
            }
            match cur.find_child(path_components[k]) {
                Some(i) => {
                    cur = &cur.children[i];
                },
                None => {
                    return None;
                },
            }
            k = k + 1;
        }
        assert(names.skip(k as int) =~= Seq::<Seq<char>>::empty());
        Some(cur)
    }

    fn project_from(&self, path: &[&str], start: usize) -> (r: Field)
        requires
            start <= path.len(),
        ensures
            r@ == project_spec(self@, names_of(path@).skip(start as int)),
        decreases path.len() - start,
    {
        let ghost names = names_of(path@).skip(start as int);
        if start == path.len() {
            assert(names.len() == 0);
            return self.duplicate();
        }
        proof {
            lemma_children_models(self);
            assert(names[0] == path@[start as int]@);
            assert(names.drop_first() =~= names_of(path@).skip(start + 1));
        }
        let mut children: Vec<Field> = Vec::new();
        match self.find_child(path[start]) {
            Some(i) => {
                let p = self.children[i].project_from(path, start + 1);
                children.push(p);
                assert(models(children@) =~= seq![p@]);
            },
            None => {
                assert(models(children@) =~= Seq::<FieldModel>::empty());
            },
        }
        self.with_children(children)
    }

    /// This field cut down to the branch that `path_components` names.
    pub fn project(&self, path_components: &[&str]) -> (r: Result<Field, SchemaError>)
        ensures
            r matches Ok(f) && f@ == project_spec(self@, names_of(path_components@)),
    {
        let f = self.project_from(path_components, 0);
        assert(names_of(path_components@).skip(0) =~= names_of(path_components@));
        Ok(f)
    }

    /// Whether two fields have the same data type.
    fn same_type_as(&self, other: &Field) -> (r: bool)
        ensures
            r == same_type(self@, other@),
        decreases self,
    {
        proof {
            lemma_children_models(self);
            lemma_children_models(other);
        }
        if !(self.logical_type == other.logical_type) {
            return false;
        }
        if is_struct(&self.logical_type) {
            if self.children.len() != other.children.len() {
                return false;
            }
            let mut i: usize = 0;
            while i < self.children.len()
                invariant
                    i <= self.children.len(),
                    self.children.len() == other.children.len(),
                    self@.children == models(self.children@),
                    other@.children == models(other.children@),
                    is_struct_type(self@.logical_type),
                    self@.logical_type == other@.logical_type,
                    forall|j: int| 0 <= j < i ==> {
                        &&& (#[trigger] self@.children[j]).name == other@.children[j].name
                        &&& self@.children[j].nullable == other@.children[j].nullable
                        &&& same_type(self@.children[j], other@.children[j])
                    },
                decreases self.children.len() - i,
            {
                let a = &self.children[i];
                let b = &other.children[i];
                assert(self@.children[i as int] == a@ && other@.children[i as int] == b@);
                if !(a.name == b.name && a.nullable == b.nullable && a.same_type_as(b)) {
                    proof {
                        let j = i as int;
                        assert(!({
                            &&& self@.children[j].name == other@.children[j].name
                            &&& self@.children[j].nullable == other@.children[j].nullable
                            &&& same_type(self@.children[j], other@.children[j])
                        }));
                        assert(is_struct_type(self@.logical_type));
                    }
                    return false;
                }
                i = i + 1;
            }
            proof {
                reveal_strlit("struct");
                reveal_strlit("list");
                reveal_strlit("list.struct");
                reveal_strlit("large_list");
                reveal_strlit("large_list.struct");
                assert("struct"@.len() == 6);
                assert("list"@.len() == 4);
                assert("list.struct"@.len() == 11);
                assert("large_list"@.len() == 10);
                assert("large_list.struct"@.len() == 17);
                assert(is_struct_type(self@.logical_type));
                assert(!is_list_type(self@.logical_type));
            }
            return true;
        }
        if is_list(&self.logical_type) {
            if self.children.len() == 0 || other.children.len() == 0 {
                return false;
            }
            let a = &self.children[0];
            let b = &other.children[0];
            return a.name == b.name && a.nullable == b.nullable && a.same_type_as(b);
        }
        true
    }

    /// Intersection of two fields of the same name: for two structs, the
    /// children that both have, each intersected in turn; otherwise a copy of
    /// this field, when both have the same data type.
    pub fn intersection(&self, other: &Field) -> (r: Result<Field, SchemaError>)
        ensures
            match r {
                Ok(f) => intersect_spec(self@, other@) == Ok::<FieldModel, SchemaError>(f@),
                Err(e) => intersect_spec(self@, other@) == Err::<FieldModel, SchemaError>(e),
            },
        decreases self,
    {
        proof {
            lemma_children_models(self);
            lemma_children_models(other);
        }
        if !(self.name == other.name) {
            return Err(SchemaError::NameMismatch);
        }
        if is_struct(&self.logical_type) && is_struct(&other.logical_type) {
            let mut children: Vec<Field> = Vec::new();
            let mut i: usize = 0;
            while i < self.children.len()
                invariant
                    i <= self.children.len(),
                    self@.children == models(self.children@),
                    other@.children == models(other.children@),
                    models(children@) == intersect_kids(self@.children, other@, i as nat),
                decreases self.children.len() - i,
            {
                let c = &self.children[i];
                match other.find_child(c.name.as_str()) {
                    Some(j) => {
                        match c.intersection(&other.children[j]) {
                            Ok(x) => {
                                proof {
                                    lemma_models_push(children@, x);
                                }
                                children.push(x);
                            },
                            Err(_) => {},
                        }
                    },
                    None => {},
                }
                i = i + 1;
            }
            return Ok(self.with_children(children));
        }
        if !self.same_type_as(other) {
            return Err(SchemaError::TypeMismatch);
        }
        Ok(self.duplicate())
    }

    /// What is left of this nested field once the fields of `other` are
    /// taken out; `None` when this field is not nested or nothing is left.
    pub fn exclude(&self, other: &Field) -> (r: Option<Field>)
        ensures
            match r {
                Some(f) => exclude_spec(self@, other@) == Some(f@),
                None => exclude_spec(self@, other@) is None,
            },
        decreases self,
    {
        proof {
            lemma_children_models(self);
            lemma_children_models(other);
        }
        if !(is_struct(&self.logical_type) || is_list(&self.logical_type)) {
            return None;
        }
        let mut children: Vec<Field> = Vec::new();
        let mut i: usize = 0;
        while i < self.children.len()
            invariant
                i <= self.children.len(),
                self@.children == models(self.children@),
                other@.children == models(other.children@),
                models(children@) == exclude_kids(self@.children, other@, i as nat),
            decreases self.children.len() - i,
        {
            let c = &self.children[i];
            match other.find_child(c.name.as_str()) {
                Some(j) => {
                    match c.exclude(&other.children[j]) {
                        Some(x) => {
                            proof {
                                lemma_models_push(children@, x);
                            }
                            children.push(x);
                        },
                        None => {},
                    }
                },
                None => {
                    let x = c.duplicate();
                    proof {
                        lemma_models_push(children@, x);
                    }
                    children.push(x);
                },
            }
            i = i + 1;
        }
        if children.len() == 0 {
            None
        } else {
            Some(self.with_children(children))
        }
    }

    /// Merges the children of `other` into this field: each into the first
    /// child of the same name, or appended when there is none.
    pub fn merge(&mut self, other: &Field) -> (r: Result<(), SchemaError>)
        ensures
            r is Ok,
            final(self)@ == merge_spec(old(self)@, other@),
        decreases other,
    {
        proof {
            lemma_children_models(self);
            lemma_children_models(other);
        }
        let ghost start = self@;
        let mut k: usize = 0;
        while k < other.children.len()
            invariant
                k <= other.children.len(),
                other@.children == models(other.children@),
                self@ == (FieldModel { children: merge_kids(start.children, other@.children, k as nat), ..start }),
            decreases other.children.len() - k,
        {
            let oc = &other.children[k];
            proof {
                lemma_children_models(self);
            }
            match self.find_child(oc.name.as_str()) {
                Some(i) => {
                    let ghost before = self.children@;
                    let _ = self.children[i].merge(oc);
                    proof {
                        assert(self.children@ == before.update(i as int, self.children@[i as int]));
                        lemma_children_models(self);
                        assert(self@.children =~= merge_kids(start.children, other@.children, (k + 1) as nat));
                    }
                },
                None => {
                    let x = oc.duplicate();
                    proof {
                        lemma_models_push(self.children@, x);
                    }
                    self.children.push(x);
                    proof {
                        lemma_children_models(self);
                    }
                },
            }
            k = k + 1;
        }
        Ok(())
    }

    /// The largest field id of this field and all of its descendants.
    pub fn max_id(&self) -> (r: i32)
        ensures
            r == max_id_spec(self@),
        decreases self,
    {
        proof {
            lemma_children_models(self);
        }
        let mut best: i32 = -1;
        let mut i: usize = 0;
        while i < self.children.len()
            invariant
                i <= self.children.len(),
                self@.children == models(self.children@),
                best == kids_max_id(self@.children, i as nat),
            decreases self.children.len() - i,
        {
            let m = self.children[i].max_id();
            if m > best {
                best = m;
            }
            i = i + 1;
        }
        if self.id >= best {
            self.id
        } else {
            best
        }
    }
}

impl PartialEq for Field {
    fn eq(&self, other: &Field) -> bool {
        self.same_as(other)
    }
}

impl vstd::std_specs::cmp::PartialEqSpecImpl for Field {
    open spec fn obeys_eq_spec() -> bool {
        true
    }

    open spec fn eq_spec(&self, other: &Field) -> bool {
        self@ == other@
    }
}


/// Number of fields in the tree of `m` that have no id yet (a negative id).
pub open spec fn unset_count(m: FieldModel) -> nat
    decreases m, 0nat,
{
    (if m.id < 0 { 1nat } else { 0nat }) + kids_unset_count(m.children, m.children.len())
}

/// Number of fields without an id in the trees of the first `n` fields of `s`.
pub open spec fn kids_unset_count(s: Seq<FieldModel>, n: nat) -> nat
    decreases s, n,
{
    if n == 0 || n > s.len() {
        0
    } else {
        kids_unset_count(s, (n - 1) as nat) + unset_count(s[n - 1])
    }
}

/// `m` with its parent id set to `parent` and, in pre-order, each field that
/// has no id given the next id from `seed` on; paired with the next unused id.
pub open spec fn set_id_spec(m: FieldModel, parent: int, seed: int) -> (FieldModel, int)
    decreases m, 0nat,
{
    let id = if m.id < 0 { seed } else { m.id };
    let next = if m.id < 0 { seed + 1 } else { seed };
    let kids = set_id_kids(m.children, id, next, m.children.len());
    (FieldModel { id, parent_id: parent, children: kids.0, ..m }, kids.1)
}

/// The first `n` fields of `s` with ids set as by `set_id_spec` under
/// `parent`, from `seed` on; paired with the next unused id.
pub open spec fn set_id_kids(s: Seq<FieldModel>, parent: int, seed: int, n: nat) -> (Seq<FieldModel>, int)
    decreases s, n,
{
    if n == 0 || n > s.len() {
        (Seq::empty(), seed)
    } else {
        let prev = set_id_kids(s, parent, seed, (n - 1) as nat);
        let c = set_id_spec(s[n - 1], parent, prev.1);
        (prev.0.push(c.0), c.1)
    }
}

proof fn lemma_kids_unset_prefix(s: Seq<FieldModel>, n: nat, m: nat)
    requires
        n <= m <= s.len(),
    ensures
        kids_unset_count(s, n) <= kids_unset_count(s, m),
    decreases m - n,
{
    if n < m {
        lemma_kids_unset_prefix(s, n, (m - 1) as nat);
    }
}

proof fn lemma_set_id_kids_seed(s: Seq<FieldModel>, parent: int, seed: int, n: nat)
    requires
        n <= s.len(),
    ensures
        set_id_kids(s, parent, seed, n).1 == seed + kids_unset_count(s, n),
        set_id_kids(s, parent, seed, n).0.len() == n,
    decreases s, n,
{
    if n > 0 {
        lemma_set_id_kids_seed(s, parent, seed, (n - 1) as nat);
        let prev = set_id_kids(s, parent, seed, (n - 1) as nat);
        lemma_set_id_seed(s[n - 1], parent, prev.1);
    }
}

proof fn lemma_set_id_seed(m: FieldModel, parent: int, seed: int)
    ensures
        set_id_spec(m, parent, seed).1 == seed + unset_count(m),
    decreases m, 0nat,
{
    let next = if m.id < 0 { seed + 1 } else { seed };
    let id = if m.id < 0 { seed } else { m.id };
    lemma_set_id_kids_seed(m.children, id, next, m.children.len());
}

impl Field {
    /// Sets the parent id of this field to `parent_id` and, in pre-order over
    /// this field and its descendants, gives each field without an id the
    /// next id from `id_seed`, which is left at the next unused id.
    pub fn set_id(&mut self, parent_id: i32, id_seed: &mut i32)
        requires
            *old(id_seed) + unset_count(old(self)@) <= i32::MAX,
        ensures
            final(self)@ == set_id_spec(old(self)@, parent_id as int, *old(id_seed) as int).0,
            *final(id_seed) == set_id_spec(old(self)@, parent_id as int, *old(id_seed) as int).1,
        decreases *old(self),
    {
        proof {
            lemma_children_models(self);
            lemma_set_id_seed(self@, parent_id as int, *id_seed as int);
        }
        let ghost start = self@;
        let ghost old_kids = self.children@;
        let ghost seed0 = *id_seed as int;
        self.parent_id = parent_id;
        if self.id < 0 {
            self.id = *id_seed;
            *id_seed = *id_seed + 1;
        }
        let ghost next = *id_seed as int;
        let ghost kids0 = start.children;
        let mut i: usize = 0;
        while i < self.children.len()
            invariant
                i <= self.children.len(),
                kids0.len() == self.children.len(),
                self.id as int == (if start.id < 0 { seed0 } else { start.id }),
                next == (if start.id < 0 { seed0 + 1 } else { seed0 }),
                next + kids_unset_count(kids0, kids0.len()) <= i32::MAX,
                set_id_kids(kids0, self.id as int, next, i as nat).1 == *id_seed as int,
                models(self.children@).take(i as int) == set_id_kids(kids0, self.id as int, next, i as nat).0,
                models(self.children@).skip(i as int) == kids0.skip(i as int),
                old_kids == old(self).children@,
                old_kids.len() == self.children.len(),
                forall|j: int| i <= j < self.children.len() ==> self.children@[j] == old_kids[j],
                self@ == (FieldModel { children: models(self.children@), id: self.id as int, parent_id: parent_id as int, ..start }),
            decreases self.children.len() - i,
        {
            proof {
                lemma_set_id_kids_seed(kids0, self.id as int, next, i as nat);
                lemma_kids_unset_prefix(kids0, (i + 1) as nat, kids0.len());
                assert(models(self.children@).skip(i as int)[0] == kids0[i as int]);
                assert(self.children@[i as int]@ == kids0[i as int]);
            }
            let ghost before = self.children@;
            let pid = self.id;
            assert(self.children@[i as int] == old(self).children@[i as int]);
            proof {
                vstd::std_specs::vec::axiom_vec_index_decreases(old(self).children, i as int);
            }
            self.children[i].set_id(pid, id_seed);
            proof {
                lemma_children_models(self);
                assert(self.children@ == before.update(i as int, self.children@[i as int]));
                assert(models(self.children@).take(i + 1) =~= models(before).take(i as int).push(self.children@[i as int]@));
                assert(models(self.children@).skip(i + 1) =~= kids0.skip(i + 1)) by {
                    assert forall|j: int| 0 <= j < kids0.len() - (i + 1) implies #[trigger] models(self.children@).skip(i + 1)[j] == kids0.skip(i + 1)[j] by {
                        assert(models(before).skip(i as int)[j + 1] == kids0.skip(i as int)[j + 1]);
                    }
                }
            }
            i = i + 1;
        }
        proof {
            assert(models(self.children@).take(i as int) =~= models(self.children@));
            lemma_children_models(self);
        }
    }
}


/// Child positions leading from `m` to its first descendant, in pre-order,
/// whose id is `id`.
pub open spec fn find_id(m: FieldModel, id: int) -> Option<Seq<int>>
    decreases m, 0nat,
{
    find_id_from(m.children, id, 0)
}

/// Child positions leading to the first field with id `id` in the trees of
/// the fields of `s` from position `k` on.
pub open spec fn find_id_from(s: Seq<FieldModel>, id: int, k: nat) -> Option<Seq<int>>
    decreases s, s.len() - k,
{
    if k >= s.len() {
        None
    } else if s[k as int].id == id {
        Some(seq![k as int])
    } else {
        match find_id(s[k as int], id) {
            Some(p) => Some(seq![k as int] + p),
            None => find_id_from(s, id, k + 1),
        }
    }
}

/// The descendant of `m` at the child positions `p`.
pub open spec fn field_at(m: FieldModel, p: Seq<int>) -> FieldModel
    decreases p.len(),
{
    if p.len() == 0 {
        m
    } else {
        field_at(m.children[p[0]], p.drop_first())
    }
}

/// `b` is `a` with its descendant at the child positions `p` replaced by
/// `x`, every other field left as it was.
pub open spec fn replaced_at(a: Field, p: Seq<int>, x: Field, b: Field) -> bool
    decreases p.len(),
{
    if p.len() == 0 {
        b == x
    } else {
        &&& 0 <= p[0] < a.children.len()
        &&& b.children.len() == a.children.len()
        &&& b.name == a.name
        &&& b.id == a.id
        &&& b.parent_id == a.parent_id
        &&& b.logical_type == a.logical_type
        &&& b.extension_name == a.extension_name
        &&& b.encoding == a.encoding
        &&& b.nullable == a.nullable
        &&& b.dictionary == a.dictionary
        &&& forall|j: int| 0 <= j < a.children.len() && j != p[0] ==> #[trigger] b.children@[j] == a.children@[j]
        &&& replaced_at(a.children@[p[0]], p.drop_first(), x, b.children@[p[0]])
    }
}

broadcast proof fn lemma_models_update(s: Seq<Field>, i: int, x: Field)
    requires
        0 <= i < s.len(),
    ensures
        #[trigger] models(s.update(i, x)) == models(s).update(i, x@),
{
    assert(models(s.update(i, x)) =~= models(s).update(i, x@));
}

impl Field {
    /// The child at position `i`, to change in place.
    fn child_at_mut(&mut self, i: usize) -> (c: &mut Field)
        requires
            i < old(self).children.len(),
        ensures
            *c == old(self).children@[i as int],
            final(self).children@ == old(self).children@.update(i as int, *final(c)),
            final(self).name == old(self).name,
            final(self).id == old(self).id,
            final(self).parent_id == old(self).parent_id,
            final(self).logical_type == old(self).logical_type,
            final(self).extension_name == old(self).extension_name,
            final(self).encoding == old(self).encoding,
            final(self).nullable == old(self).nullable,
            final(self).dictionary == old(self).dictionary,
    {
        &mut self.children[i]
    }

    /// Whether some descendant of this field has id `id`.
    fn has_id(&self, id: i32) -> (r: bool)
        ensures
            r == find_id(self@, id as int) is Some,
        decreases self,
    {
        proof {
            lemma_children_models(self);
        }
        let mut i: usize = 0;
        while i < self.children.len()
            invariant
                i <= self.children.len(),
                self@.children == models(self.children@),
                find_id(self@, id as int) == find_id_from(self@.children, id as int, i as nat),
            decreases self.children.len() - i,
        {
            if self.children[i].id == id {
                return true;
            }
            if self.children[i].has_id(id) {
                return true;
            }
            i = i + 1;
        }
        false
    }

    /// The first descendant, in pre-order, whose id is `id`, to change in
    /// place.
    pub fn mut_field_by_id(&mut self, id: i32) -> (r: Option<&mut Field>)
        ensures
            r is Some == find_id(old(self)@, id as int) is Some,
            r is None ==> final(self)@ == old(self)@,
            r matches Some(c) ==> c@ == field_at(old(self)@, find_id(old(self)@, id as int)->Some_0),
            r matches Some(c) ==> replaced_at(*old(self), find_id(old(self)@, id as int)->Some_0, *final(c), *final(self)),
        decreases *old(self),
    {
        broadcast use {lemma_children_models, lemma_models_update};

        let mut i: usize = 0;
        while i < self.children.len()
            invariant
                i <= self.children.len(),
                *self == *old(self),
                self@.children == models(self.children@),
                find_id(self@, id as int) == find_id_from(self@.children, id as int, i as nat),
            decreases self.children.len() - i,
        {
            if self.children[i].id == id {
                proof {
                    assert(find_id(self@, id as int) == Some(seq![i as int]));
                    assert(seq![i as int].drop_first() =~= Seq::<int>::empty());
                    assert(seq![i as int][0] == i);
                    assert(self@.children[i as int] == self.children@[i as int]@);
                    assert(field_at(self@.children[i as int], Seq::<int>::empty()) == self@.children[i as int]);
                    assert(field_at(self@, seq![i as int]) == self.children@[i as int]@);
                }
                proof {
                    reveal_with_fuel(replaced_at, 2);
                }
                let c = self.child_at_mut(i);
                return Some(c);
            }
            if self.children[i].has_id(id) {
                proof {
                    vstd::std_specs::vec::axiom_vec_index_decreases(old(self).children, i as int);
                }
                proof {
                    let child = self.children@[i as int]@;
                    assert(self@.children[i as int] == child);
                    let p = find_id(child, id as int)->Some_0;
                    assert(find_id(self@, id as int) == Some(seq![i as int] + p));
                    assert((seq![i as int] + p)[0] == i);
                    assert((seq![i as int] + p).drop_first() =~= p);
                }
                let r = self.children[i].mut_field_by_id(id);
                return r;
            }
            i = i + 1;
        }
        None
    }
}

} // verus!
