//! The JSON document model for client configuration files: a value type,
//! a pretty-printing renderer and a parser, all over plain characters.

use vstd::prelude::*;

verus! {

broadcast use vstd::std_specs::vec::group_vec_axioms;

/// Mathematical model of a JSON document. Objects keep their fields in
/// insertion order, so rendering and re-parsing preserves a document exactly.
pub enum JVal {
    Null,
    Bool(bool),
    Int(int),
    /// A number the store does not interpret — fractional, with an
    /// exponent, or beyond the signed 64-bit range — carried as its raw
    /// lexeme and rendered back verbatim.
    NumLit(Seq<char>),
    Str(Seq<char>),
    Arr(Seq<JVal>),
    Obj(Seq<(Seq<char>, JVal)>),
}

/// A JSON value as stored and edited by the configuration store. Numbers
/// the store interprets are signed 64-bit integers, which covers every
/// value these configuration files carry; any other number — fractional,
/// with an exponent, or beyond that range — is carried opaquely as its raw
/// lexeme and written back verbatim.
#[derive(Debug, PartialEq)]
pub enum JsonValue {
    Null,
    Bool(bool),
    Int(i64),
    NumLit(String),
    Str(String),
    Arr(Vec<JsonValue>),
    Obj(Vec<(String, JsonValue)>),
}

/// The model of a single value.
pub open spec fn jval_of(v: JsonValue) -> JVal
    decreases v,
{
    match v {
        JsonValue::Null => JVal::Null,
        JsonValue::Bool(b) => JVal::Bool(b),
        JsonValue::Int(n) => JVal::Int(n as int),
        JsonValue::NumLit(s) => JVal::NumLit(s@),
        JsonValue::Str(s) => JVal::Str(s@),
        JsonValue::Arr(items) => JVal::Arr(jvals_of(items@)),
        JsonValue::Obj(fields) => JVal::Obj(jfields_of(fields@)),
    }
}

/// The models of the elements of an array, in order.
pub open spec fn jvals_of(s: Seq<JsonValue>) -> Seq<JVal>
    decreases s,
{
    if s.len() == 0 {
        Seq::empty()
    } else {
        seq![jval_of(s[0])] + jvals_of(s.subrange(1, s.len() as int))
    }
}

/// The models of the fields of an object, in order.
pub open spec fn jfields_of(s: Seq<(String, JsonValue)>) -> Seq<(Seq<char>, JVal)>
    decreases s,
{
    if s.len() == 0 {
        Seq::empty()
    } else {
        seq![(s[0].0@, jval_of(s[0].1))] + jfields_of(s.subrange(1, s.len() as int))
    }
}

impl View for JsonValue {
    type V = JVal;

    open spec fn view(&self) -> JVal {
        jval_of(*self)
    }
}

/// The element models of an array, described pointwise.
pub broadcast proof fn lemma_jvals_of(s: Seq<JsonValue>)
    ensures
        (#[trigger] jvals_of(s)).len() == s.len(),
        forall|i: int| 0 <= i < s.len() ==> jvals_of(s)[i] == jval_of(s[i]),
    decreases s,
{
    if s.len() > 0 {
        lemma_jvals_of(s.subrange(1, s.len() as int));
        assert forall|i: int| 0 <= i < s.len() implies jvals_of(s)[i] == jval_of(s[i]) by {
            if i > 0 {
                assert(s.subrange(1, s.len() as int)[i - 1] == s[i]);
            }
        }
    }
}

/// The field models of an object, described pointwise.
pub broadcast proof fn lemma_jfields_of(s: Seq<(String, JsonValue)>)
    ensures
        (#[trigger] jfields_of(s)).len() == s.len(),
        forall|i: int| 0 <= i < s.len() ==> jfields_of(s)[i] == (s[i].0@, jval_of(s[i].1)),
    decreases s,
{
    if s.len() > 0 {
        lemma_jfields_of(s.subrange(1, s.len() as int));
        assert forall|i: int| 0 <= i < s.len() implies jfields_of(s)[i] == (
        s[i].0@,
        jval_of(s[i].1),
        ) by {
            if i > 0 {
                assert(s.subrange(1, s.len() as int)[i - 1] == s[i]);
            }
        }
    }
}

/// The value stored under a key: the first field with that key, if any.
pub open spec fn oget(fs: Seq<(Seq<char>, JVal)>, k: Seq<char>) -> Option<JVal>
    decreases fs,
{
    if fs.len() == 0 {
        None
    } else if fs[0].0 == k {
        Some(fs[0].1)
    } else {
        oget(fs.subrange(1, fs.len() as int), k)
    }
}

/// Whether an object holds a field with the given key.
pub open spec fn ohas(fs: Seq<(Seq<char>, JVal)>, k: Seq<char>) -> bool {
    oget(fs, k) is Some
}

/// The object after storing `v` under `k`: the first field with that key is
/// replaced in place, or a new field is appended at the end.
pub open spec fn oset(fs: Seq<(Seq<char>, JVal)>, k: Seq<char>, v: JVal) -> Seq<(Seq<char>, JVal)>
    decreases fs,
{
    if fs.len() == 0 {
        seq![(k, v)]
    } else if fs[0].0 == k {
        seq![(k, v)] + fs.subrange(1, fs.len() as int)
    } else {
        seq![fs[0]] + oset(fs.subrange(1, fs.len() as int), k, v)
    }
}

/// The object with every field named `k` removed.
pub open spec fn oremove(fs: Seq<(Seq<char>, JVal)>, k: Seq<char>) -> Seq<(Seq<char>, JVal)>
    decreases fs,
{
    if fs.len() == 0 {
        fs
    } else if fs[0].0 == k {
        oremove(fs.subrange(1, fs.len() as int), k)
    } else {
        seq![fs[0]] + oremove(fs.subrange(1, fs.len() as int), k)
    }
}

/// Looking up the key just stored yields the value just stored.
pub proof fn lemma_oget_oset(fs: Seq<(Seq<char>, JVal)>, k: Seq<char>, v: JVal)
    ensures
        oget(oset(fs, k, v), k) == Some(v),
    decreases fs,
{
    if fs.len() > 0 && fs[0].0 != k {
        lemma_oget_oset(fs.subrange(1, fs.len() as int), k, v);
        assert(oset(fs, k, v).subrange(1, oset(fs, k, v).len() as int) =~= oset(
            fs.subrange(1, fs.len() as int),
            k,
            v,
        ));
    }
}

/// Storing under one key leaves every other key unchanged.
pub proof fn lemma_oget_oset_other(
    fs: Seq<(Seq<char>, JVal)>,
    k: Seq<char>,
    v: JVal,
    k2: Seq<char>,
)
    requires
        k2 != k,
    ensures
        oget(oset(fs, k, v), k2) == oget(fs, k2),
    decreases fs,
{
    if fs.len() == 0 {
        assert(oset(fs, k, v) =~= seq![(k, v)]);
        assert(oset(fs, k, v)[0].0 == k);
        assert(oset(fs, k, v).subrange(1, 1) =~= Seq::<(Seq<char>, JVal)>::empty());
        assert(oget(oset(fs, k, v), k2) == oget(
            oset(fs, k, v).subrange(1, 1),
            k2,
        ));
    } else if fs[0].0 == k {
        assert(oset(fs, k, v).subrange(1, oset(fs, k, v).len() as int) =~= fs.subrange(
            1,
            fs.len() as int,
        ));
    } else {
        lemma_oget_oset_other(fs.subrange(1, fs.len() as int), k, v, k2);
        assert(oset(fs, k, v).subrange(1, oset(fs, k, v).len() as int) =~= oset(
            fs.subrange(1, fs.len() as int),
            k,
            v,
        ));
    }
}

/// A removed key is gone.
pub proof fn lemma_oget_oremove(fs: Seq<(Seq<char>, JVal)>, k: Seq<char>)
    ensures
        oget(oremove(fs, k), k) is None,
    decreases fs,
{
    if fs.len() > 0 {
        lemma_oget_oremove(fs.subrange(1, fs.len() as int), k);
        if fs[0].0 != k {
            assert(oremove(fs, k).subrange(1, oremove(fs, k).len() as int) =~= oremove(
                fs.subrange(1, fs.len() as int),
                k,
            ));
        }
    }
}

/// Removing one key leaves every other key unchanged.
pub proof fn lemma_oget_oremove_other(fs: Seq<(Seq<char>, JVal)>, k: Seq<char>, k2: Seq<char>)
    requires
        k2 != k,
    ensures
        oget(oremove(fs, k), k2) == oget(fs, k2),
    decreases fs,
{
    if fs.len() > 0 {
        lemma_oget_oremove_other(fs.subrange(1, fs.len() as int), k, k2);
        if fs[0].0 != k {
            assert(oremove(fs, k).subrange(1, oremove(fs, k).len() as int) =~= oremove(
                fs.subrange(1, fs.len() as int),
                k,
            ));
        }
    }
}

/// Skipping a prefix without the key leaves the lookup unchanged.
pub proof fn lemma_oget_skip(fs: Seq<(Seq<char>, JVal)>, k: Seq<char>, i: int)
    requires
        0 <= i <= fs.len(),
        forall|j: int| 0 <= j < i ==> fs[j].0 != k,
    ensures
        oget(fs, k) == oget(fs.subrange(i, fs.len() as int), k),
    decreases i,
{
    if i == 0 {
        assert(fs.subrange(0, fs.len() as int) =~= fs);
    } else {
        lemma_oget_skip(fs, k, i - 1);
        let tail = fs.subrange(i - 1, fs.len() as int);
        assert(tail[0] == fs[i - 1]);
        assert(fs[i - 1].0 != k);
        assert(tail.subrange(1, tail.len() as int) =~= fs.subrange(i, fs.len() as int));
        assert(oget(tail, k) == oget(tail.subrange(1, tail.len() as int), k));
    }
}

/// When the first field with the key stands at `i`, storing under the key
/// updates exactly that field.
pub proof fn lemma_oset_found(fs: Seq<(Seq<char>, JVal)>, k: Seq<char>, v: JVal, i: int)
    requires
        0 <= i < fs.len(),
        fs[i].0 == k,
        forall|j: int| 0 <= j < i ==> fs[j].0 != k,
    ensures
        oset(fs, k, v) =~= fs.update(i, (k, v)),
    decreases i,
{
    if i == 0 {
        assert(oset(fs, k, v) =~= seq![(k, v)] + fs.subrange(1, fs.len() as int));
        assert(seq![(k, v)] + fs.subrange(1, fs.len() as int) =~= fs.update(0, (k, v)));
    } else {
        let tail = fs.subrange(1, fs.len() as int);
        assert(tail[i - 1] == fs[i]);
        assert(forall|j: int| 0 <= j < i - 1 ==> tail[j] == fs[j + 1]);
        lemma_oset_found(tail, k, v, i - 1);
        assert(oset(fs, k, v) =~= seq![fs[0]] + tail.update(i - 1, (k, v)));
        assert(seq![fs[0]] + tail.update(i - 1, (k, v)) =~= fs.update(i, (k, v)));
    }
}

/// When no field has the key, storing under the key appends a field.
pub proof fn lemma_oset_absent(fs: Seq<(Seq<char>, JVal)>, k: Seq<char>, v: JVal)
    requires
        forall|j: int| 0 <= j < fs.len() ==> fs[j].0 != k,
    ensures
        oset(fs, k, v) =~= fs.push((k, v)),
    decreases fs,
{
    if fs.len() == 0 {
        assert(oset(fs, k, v) =~= fs.push((k, v)));
    } else {
        let tail = fs.subrange(1, fs.len() as int);
        assert(forall|j: int| 0 <= j < tail.len() ==> tail[j] == fs[j + 1]);
        lemma_oset_absent(tail, k, v);
        assert(oset(fs, k, v) =~= seq![fs[0]] + tail.push((k, v)));
        assert(seq![fs[0]] + tail.push((k, v)) =~= fs.push((k, v)));
    }
}

/// Character-by-character string equality, proved against the string views.
pub fn str_eq(a: &str, b: &str) -> (r: bool)
    ensures
        r == (a@ == b@),
{
    let alen = a.unicode_len();
    let blen = b.unicode_len();
    if alen != blen {
        return false;
    }
    let mut i: usize = 0;
    while i < alen
        invariant
            alen == a@.len(),
            alen == b@.len(),
            0 <= i <= alen,
            forall|j: int| 0 <= j < i ==> a@[j] == b@[j],
        decreases alen - i,
    {
        if a.get_char(i) != b.get_char(i) {
            return false;
        }
        i += 1;
    }
    proof {
        assert(a@ =~= b@);
    }
    true
}

/// The value under a key of a JSON value, when the value is an object that
/// holds the key.
pub open spec fn jget(v: JVal, k: Seq<char>) -> Option<JVal> {
    match v {
        JVal::Obj(fs) => oget(fs, k),
        _ => None,
    }
}

/// Whether a JSON value is an object holding the key.
pub open spec fn jhas(v: JVal, k: Seq<char>) -> bool {
    jget(v, k) is Some
}

/// The object with `x` stored under `k`; any other value is left as it is.
pub open spec fn jset(v: JVal, k: Seq<char>, x: JVal) -> JVal {
    match v {
        JVal::Obj(fs) => JVal::Obj(oset(fs, k, x)),
        _ => v,
    }
}

/// The object with every field named `k` removed; any other value is left
/// as it is.
pub open spec fn jremove(v: JVal, k: Seq<char>) -> JVal {
    match v {
        JVal::Obj(fs) => JVal::Obj(oremove(fs, k)),
        _ => v,
    }
}

impl JsonValue {
    /// An object with no fields.
    pub fn empty_object() -> (r: JsonValue)
        ensures
            r@ == JVal::Obj(Seq::<(Seq<char>, JVal)>::empty()),
    {
        let fields: Vec<(String, JsonValue)> = Vec::new();
        proof {
            assert(jfields_of(fields@) =~= Seq::<(Seq<char>, JVal)>::empty());
        }
        JsonValue::Obj(fields)
    }

    /// Whether this value is an object.
    pub fn is_object(&self) -> (r: bool)
        ensures
            r == (self@ is Obj),
    {
        match self {
            JsonValue::Obj(_) => true,
            _ => false,
        }
    }

    /// The position of the first field with the given key, if any.
    fn find_key(fields: &Vec<(String, JsonValue)>, key: &str) -> (r: Option<usize>)
        ensures
            match r {
                Some(i) => {
                    &&& 0 <= i < fields@.len()
                    &&& fields@[i as int].0@ == key@
                    &&& forall|j: int| 0 <= j < i ==> fields@[j].0@ != key@
                },
                None => forall|j: int| 0 <= j < fields@.len() ==> fields@[j].0@ != key@,
            },
    {
        let mut i: usize = 0;
        while i < fields.len()
            invariant
                0 <= i <= fields@.len(),
                forall|j: int| 0 <= j < i ==> fields@[j].0@ != key@,
            decreases fields@.len() - i,
        {
            if str_eq(fields[i].0.as_str(), key) {
                return Some(i);
            }
            i += 1;
        }
        None
    }

    /// Look up a key: `Some` exactly when this value is an object with such
    /// a field, and then the field's first value.
    pub fn obj_get<'a>(&'a self, key: &str) -> (r: Option<&'a JsonValue>)
        ensures
            match r {
                Some(v) => jget(self@, key@) == Some(v@),
                None => jget(self@, key@) is None,
            },
    {
        broadcast use lemma_jfields_of;

        match self {
            JsonValue::Obj(fields) => {
                match Self::find_key(fields, key) {
                    Some(i) => {
                        proof {
                            let fs = jfields_of(fields@);
                            lemma_oget_skip(fs, key@, i as int);
                            assert(fs.subrange(i as int, fs.len() as int)[0] == fs[i as int]);
                        }
                        Some(&fields[i].1)
                    },
                    None => {
                        proof {
                            let fs = jfields_of(fields@);
                            lemma_oget_skip(fs, key@, fs.len() as int);
                            assert(fs.subrange(fs.len() as int, fs.len() as int) =~= Seq::<
                                (Seq<char>, JVal),
                            >::empty());
                        }
                        None
                    },
                }
            },
            _ => None,
        }
    }

    /// Whether this value is an object with a field of the given key.
    pub fn obj_has(&self, key: &str) -> (r: bool)
        ensures
            r == jhas(self@, key@),
    {
        match self.obj_get(key) {
            Some(_) => true,
            None => false,
        }
    }

    /// Store a value under a key: the first field with that key is replaced
    /// in place, or a new field is appended.
    pub fn obj_set(self, key: &str, val: JsonValue) -> (r: JsonValue)
        requires
            self@ is Obj,
        ensures
            r@ == jset(self@, key@, val@),
    {
        broadcast use lemma_jfields_of;

        match self {
            JsonValue::Obj(mut fields) => {
                let ks = key.to_owned();
                let ghost ksv = ks@;
                let ghost vv = jval_at(val);
                match Self::find_key(&fields, key) {
                    Some(i) => {
                        proof {
                            lemma_oset_found(jfields_of(fields@), key@, vv, i as int);
                        }
                        let ghost before = fields@;
                        fields.remove(i);
                        fields.insert(i, (ks, val));
                        proof {
                            assert(fields@ =~= before.update(i as int, fields@[i as int]));
                            assert(fields@[i as int].0@ == ksv);
                            assert(jval_at(fields@[i as int].1) == vv);
                            assert(jfields_of(fields@) =~= jfields_of(before).update(
                                i as int,
                                (key@, vv),
                            ));
                        }
                        JsonValue::Obj(fields)
                    },
                    None => {
                        proof {
                            lemma_oset_absent(jfields_of(fields@), key@, vv);
                        }
                        let ghost before = fields@;
                        fields.push((ks, val));
                        proof {
                            assert(fields@[fields@.len() - 1].0@ == ksv);
                            assert(jval_at(fields@[fields@.len() - 1].1) == vv);
                            assert(jfields_of(fields@) =~= jfields_of(before).push((key@, vv)));
                        }
                        JsonValue::Obj(fields)
                    },
                }
            },
            other => other,
        }
    }

    /// Remove every field with the given key; reports whether any was there.
    pub fn obj_remove(self, key: &str) -> (r: (JsonValue, bool))
        requires
            self@ is Obj,
        ensures
            r.0@ == jremove(self@, key@),
            r.1 == jhas(self@, key@),
    {
        broadcast use lemma_jfields_of;

        match self {
            JsonValue::Obj(mut fields) => {
                let ghost fs = jfields_of(fields@);
                let mut out: Vec<(String, JsonValue)> = Vec::new();
                let mut removed = false;
                proof {
                    assert(jfields_of(out@) =~= Seq::<(Seq<char>, JVal)>::empty());
                }
                while fields.len() > 0
                    invariant
                        oremove(fs, key@) == jfields_of(out@) + oremove(
                            jfields_of(fields@),
                            key@,
                        ),
                        removed == (ohas(fs, key@) != ohas(jfields_of(fields@), key@))
                            || (removed && ohas(fs, key@)),
                        ohas(jfields_of(fields@), key@) ==> ohas(fs, key@),
                    decreases fields@.len(),
                {
                    let ghost cur = jfields_of(fields@);
                    let ghost curv = fields@;
                    let f = fields.remove(0);
                    let ghost fk = f.0@;
                    let ghost fv = jval_at(f.1);
                    proof {
                        assert(fields@ =~= curv.subrange(1, curv.len() as int));
                        assert(jfields_of(fields@) =~= cur.subrange(1, cur.len() as int));
                        assert(cur[0] == (fk, fv));
                    }
                    if str_eq(f.0.as_str(), key) {
                        removed = true;
                        proof {
                            assert(oremove(cur, key@) == oremove(
                                cur.subrange(1, cur.len() as int),
                                key@,
                            ));
                            assert(ohas(cur, key@));
                        }
                    } else {
                        let ghost outb = out@;
                        let ghost fg = f;
                        out.push(f);
                        proof {
                            lemma_jfields_of(out@);
                            lemma_jfields_of(outb);
                            assert(out@ == outb.push(fg));
                            assert((fg.0@, jval_at(fg.1)) == (fk, fv));
                            assert forall|j: int| 0 <= j < out@.len() implies jfields_of(out@)[j]
                                == jfields_of(outb).push((fk, fv))[j] by {
                                if j < outb.len() {
                                    assert(out@[j] == outb[j]);
                                } else {
                                    assert(out@[j] == fg);
                                }
                            }
                            assert(jfields_of(out@) =~= jfields_of(outb).push((fk, fv)));
                            assert(oremove(cur, key@) =~= seq![(fk, fv)] + oremove(
                                cur.subrange(1, cur.len() as int),
                                key@,
                            ));
                            assert(jfields_of(outb) + oremove(cur, key@) =~= jfields_of(out@)
                                + oremove(cur.subrange(1, cur.len() as int), key@));
                        }
                    }
                }
                proof {
                    assert(jfields_of(fields@) =~= Seq::<(Seq<char>, JVal)>::empty());
                    assert(jfields_of(out@) + oremove(jfields_of(fields@), key@) =~= jfields_of(
                        out@,
                    ));
                }
                (JsonValue::Obj(out), removed)
            },
            other => {
                proof {
                    assert(false);
                }
                (other, false)
            },
        }
    }
}

impl JsonValue {
    /// Structural equality of two documents, decided recursively.
    #[verifier::loop_isolation(false)]
    pub fn deep_eq(&self, other: &JsonValue) -> (r: bool)
        ensures
            r == (self@ == other@),
        decreases self,
    {
        match (self, other) {
            (JsonValue::Null, JsonValue::Null) => true,
            (JsonValue::Bool(a), JsonValue::Bool(b)) => a == b,
            (JsonValue::Int(a), JsonValue::Int(b)) => a == b,
            (JsonValue::NumLit(a), JsonValue::NumLit(b)) => str_eq(a.as_str(), b.as_str()),
            (JsonValue::Str(a), JsonValue::Str(b)) => str_eq(a.as_str(), b.as_str()),
            (JsonValue::Arr(xs), JsonValue::Arr(ys)) => {
                proof {
                    lemma_jvals_of(xs@);
                    lemma_jvals_of(ys@);
                }
                if xs.len() != ys.len() {
                    return false;
                }
                let mut i: usize = 0;
                while i < xs.len()
                    invariant
                        xs@.len() == ys@.len(),
                        0 <= i <= xs@.len(),
                        jvals_of(xs@).len() == xs@.len(),
                        jvals_of(ys@).len() == ys@.len(),
                        forall|j: int| 0 <= j < xs@.len() ==> jvals_of(xs@)[j] == jval_at(
                            xs@[j],
                        ),
                        forall|j: int| 0 <= j < ys@.len() ==> jvals_of(ys@)[j] == jval_at(
                            ys@[j],
                        ),
                        forall|j: int| 0 <= j < i ==> jval_at(xs@[j]) == jval_at(ys@[j]),
                        self@ == JVal::Arr(jvals_of(xs@)),
                        other@ == JVal::Arr(jvals_of(ys@)),
                    decreases xs@.len() - i,
                {
                    proof {
                        assert(decreases_to!(*self => *xs));
                        assert(decreases_to!(*xs => xs@[i as int]));
                    }
                    if !xs[i].deep_eq(&ys[i]) {
                        proof {
                            assert(jvals_of(xs@)[i as int] != jvals_of(ys@)[i as int]);
                            assert(jvals_of(xs@) != jvals_of(ys@));
                        }
                        return false;
                    }
                    i += 1;
                }
                proof {
                    assert(jvals_of(xs@) =~= jvals_of(ys@));
                }
                true
            },
            (JsonValue::Obj(xs), JsonValue::Obj(ys)) => {
                proof {
                    lemma_jfields_of(xs@);
                    lemma_jfields_of(ys@);
                }
                if xs.len() != ys.len() {
                    return false;
                }
                let mut i: usize = 0;
                while i < xs.len()
                    invariant
                        xs@.len() == ys@.len(),
                        0 <= i <= xs@.len(),
                        jfields_of(xs@).len() == xs@.len(),
                        jfields_of(ys@).len() == ys@.len(),
                        forall|j: int| 0 <= j < xs@.len() ==> jfields_of(xs@)[j] == (
                            xs@[j].0@,
                            jval_at(xs@[j].1),
                        ),
                        forall|j: int| 0 <= j < ys@.len() ==> jfields_of(ys@)[j] == (
                            ys@[j].0@,
                            jval_at(ys@[j].1),
                        ),
                        forall|j: int| 0 <= j < i ==> xs@[j].0@ == ys@[j].0@ && jval_at(
                            xs@[j].1,
                        ) == jval_at(ys@[j].1),
                        self@ == JVal::Obj(jfields_of(xs@)),
                        other@ == JVal::Obj(jfields_of(ys@)),
                    decreases xs@.len() - i,
                {
                    if !str_eq(xs[i].0.as_str(), ys[i].0.as_str()) {
                        proof {
                            assert(jfields_of(xs@)[i as int].0 != jfields_of(ys@)[i as int].0);
                            assert(jfields_of(xs@) != jfields_of(ys@));
                        }
                        return false;
                    }
                    proof {
                        assert(decreases_to!(*self => *xs));
                        assert(decreases_to!(*xs => xs@[i as int]));
                        assert(decreases_to!(xs@[i as int] => xs@[i as int].1));
                    }
                    if !xs[i].1.deep_eq(&ys[i].1) {
                        proof {
                            assert(jfields_of(xs@)[i as int] != jfields_of(ys@)[i as int]);
                            assert(jfields_of(xs@) != jfields_of(ys@));
                        }
                        return false;
                    }
                    i += 1;
                }
                proof {
                    assert(jfields_of(xs@) =~= jfields_of(ys@));
                }
                true
            },
            _ => false,
        }
    }

    /// A structurally identical copy of this document.
    #[verifier::loop_isolation(false)]
    pub fn deep_clone(&self) -> (r: JsonValue)
        ensures
            r@ == self@,
        decreases self,
    {
        match self {
            JsonValue::Null => JsonValue::Null,
            JsonValue::Bool(b) => JsonValue::Bool(*b),
            JsonValue::Int(n) => JsonValue::Int(*n),
            JsonValue::NumLit(s) => JsonValue::NumLit(s.clone()),
            JsonValue::Str(s) => JsonValue::Str(s.clone()),
            JsonValue::Arr(xs) => {
                proof {
                    lemma_jvals_of(xs@);
                }
                let mut out: Vec<JsonValue> = Vec::new();
                let mut i: usize = 0;
                while i < xs.len()
                    invariant
                        0 <= i <= xs@.len(),
                        out@.len() == i,
                        forall|j: int| 0 <= j < i ==> jval_at(out@[j]) == jval_at(xs@[j]),
                    decreases xs@.len() - i,
                {
                    proof {
                        assert(decreases_to!(*self => *xs));
                        assert(decreases_to!(*xs => xs@[i as int]));
                    }
                    let c = xs[i].deep_clone();
                    out.push(c);
                    i += 1;
                }
                proof {
                    lemma_jvals_of(out@);
                    assert(jvals_of(out@) =~= jvals_of(xs@));
                }
                JsonValue::Arr(out)
            },
            JsonValue::Obj(xs) => {
                proof {
                    lemma_jfields_of(xs@);
                }
                let mut out: Vec<(String, JsonValue)> = Vec::new();
                let mut i: usize = 0;
                while i < xs.len()
                    invariant
                        0 <= i <= xs@.len(),
                        out@.len() == i,
                        forall|j: int| 0 <= j < i ==> out@[j].0@ == xs@[j].0@ && jval_at(
                            out@[j].1,
                        ) == jval_at(xs@[j].1),
                    decreases xs@.len() - i,
                {
                    proof {
                        assert(decreases_to!(*self => *xs));
                        assert(decreases_to!(*xs => xs@[i as int]));
                        assert(decreases_to!(xs@[i as int] => xs@[i as int].1));
                    }
                    let k = xs[i].0.clone();
                    let c = xs[i].1.deep_clone();
                    out.push((k, c));
                    i += 1;
                }
                proof {
                    lemma_jfields_of(out@);
                    assert(jfields_of(out@) =~= jfields_of(xs@));
                }
                JsonValue::Obj(out)
            },
        }
    }

    /// The characters of a string value.
    pub fn as_str(&self) -> (r: Option<&String>)
        ensures
            r is Some <==> self@ is Str,
            r is Some ==> self@ == JVal::Str(r->0@),
    {
        match self {
            JsonValue::Str(s) => Some(s),
            _ => None,
        }
    }

    /// The elements of an array value.
    pub fn as_array(&self) -> (r: Option<&Vec<JsonValue>>)
        ensures
            r is Some <==> self@ is Arr,
            r is Some ==> self@ == JVal::Arr(jvals_of(r->0@)),
    {
        match self {
            JsonValue::Arr(items) => Some(items),
            _ => None,
        }
    }

    /// A string value built from a string slice.
    pub fn of_str(s: &str) -> (r: JsonValue)
        ensures
            r@ == JVal::Str(s@),
    {
        JsonValue::Str(s.to_owned())
    }
}

/// Whether a field list holds the given key.
pub fn fields_have_key(fields: &Vec<(String, JsonValue)>, key: &str) -> (r: bool)
    ensures
        r == ohas(jfields_of(fields@), key@),
{
    broadcast use lemma_jfields_of;

    match JsonValue::find_key(fields, key) {
        Some(i) => {
            proof {
                let fs = jfields_of(fields@);
                lemma_oget_skip(fs, key@, i as int);
                assert(fs.subrange(i as int, fs.len() as int)[0] == fs[i as int]);
            }
            true
        },
        None => {
            proof {
                let fs = jfields_of(fields@);
                lemma_oget_skip(fs, key@, fs.len() as int);
                assert(fs.subrange(fs.len() as int, fs.len() as int) =~= Seq::<
                    (Seq<char>, JVal),
                >::empty());
            }
            false
        },
    }
}

/// Shorthand for the model of a value, usable where `@` does not parse.
pub open spec fn jval_at(v: JsonValue) -> JVal {
    jval_of(v)
}


/// A decimal digit as a character.
pub open spec fn dec_digit(n: int) -> char {
    if n == 0 { '0' } else if n == 1 { '1' } else if n == 2 { '2' } else if n == 3 { '3' }
    else if n == 4 { '4' } else if n == 5 { '5' } else if n == 6 { '6' } else if n == 7 { '7' }
    else if n == 8 { '8' } else { '9' }
}

/// A hexadecimal digit as a lower-case character.
pub open spec fn hex_digit(n: int) -> char {
    if n < 10 { dec_digit(n) }
    else if n == 10 { 'a' } else if n == 11 { 'b' } else if n == 12 { 'c' }
    else if n == 13 { 'd' } else if n == 14 { 'e' } else { 'f' }
}

/// The decimal rendering of a non-negative number.
pub open spec fn dec_chars(n: nat) -> Seq<char>
    decreases n,
{
    if n < 10 {
        seq![dec_digit(n as int)]
    } else {
        dec_chars(n / 10) + seq![dec_digit((n % 10) as int)]
    }
}

/// The decimal rendering of an integer, with a sign where negative.
pub open spec fn int_chars(n: int) -> Seq<char> {
    if n >= 0 {
        dec_chars(n as nat)
    } else {
        seq!['-'] + dec_chars((-n) as nat)
    }
}

/// The escape of one character inside a JSON string literal.
pub open spec fn esc_char(c: char) -> Seq<char> {
    if c == '"' {
        seq!['\\', '"']
    } else if c == '\\' {
        seq!['\\', '\\']
    } else if c == '\n' {
        seq!['\\', 'n']
    } else if c == '\r' {
        seq!['\\', 'r']
    } else if c == '\t' {
        seq!['\\', 't']
    } else if (c as u32) < 0x20 {
        seq!['\\', 'u', '0', '0', hex_digit(c as u32 as int / 16), hex_digit(c as u32 as int % 16)]
    } else {
        seq![c]
    }
}

/// The escaped body of a JSON string literal.
pub open spec fn esc_str(s: Seq<char>) -> Seq<char>
    decreases s,
{
    if s.len() == 0 {
        Seq::empty()
    } else {
        esc_char(s[0]) + esc_str(s.subrange(1, s.len() as int))
    }
}

/// Escaping distributes over concatenation.
pub proof fn lemma_esc_str_concat(a: Seq<char>, b: Seq<char>)
    ensures
        esc_str(a + b) == esc_str(a) + esc_str(b),
    decreases a,
{
    if a.len() == 0 {
        assert(a + b =~= b);
        assert(esc_str(a) + esc_str(b) =~= esc_str(b));
    } else {
        lemma_esc_str_concat(a.subrange(1, a.len() as int), b);
        assert((a + b)[0] == a[0]);
        assert((a + b).subrange(1, (a + b).len() as int) =~= a.subrange(1, a.len() as int) + b);
        assert(esc_char(a[0]) + (esc_str(a.subrange(1, a.len() as int)) + esc_str(b)) =~= (
        esc_char(a[0]) + esc_str(a.subrange(1, a.len() as int))) + esc_str(b));
    }
}

/// A line break followed by the given indentation.
pub open spec fn nl_ind(ind: Seq<char>) -> Seq<char> {
    seq!['\n'] + ind
}

/// The pretty rendering of a value, standing on a line indented by `ind`.
/// Arrays and objects spread over several lines, indented by two further
/// spaces per level.
pub open spec fn spec_render(v: JVal, ind: Seq<char>) -> Seq<char>
    decreases v,
{
    match v {
        JVal::Null => seq!['n', 'u', 'l', 'l'],
        JVal::Bool(b) => if b {
            seq!['t', 'r', 'u', 'e']
        } else {
            seq!['f', 'a', 'l', 's', 'e']
        },
        JVal::Int(n) => int_chars(n),
        JVal::NumLit(s) => s,
        JVal::Str(s) => seq!['"'] + esc_str(s) + seq!['"'],
        JVal::Arr(items) => if items.len() == 0 {
            seq!['[', ']']
        } else {
            seq!['['] + spec_render_items(items, ind + seq![' ', ' ']) + nl_ind(ind) + seq![']']
        },
        JVal::Obj(fs) => if fs.len() == 0 {
            seq!['{', '}']
        } else {
            seq!['{'] + spec_render_fields(fs, ind + seq![' ', ' ']) + nl_ind(ind) + seq!['}']
        },
    }
}

/// The rendered elements of a non-empty array, each on its own line.
pub open spec fn spec_render_items(items: Seq<JVal>, ind: Seq<char>) -> Seq<char>
    decreases items,
{
    if items.len() == 0 {
        Seq::empty()
    } else {
        let head = nl_ind(ind) + spec_render(items[0], ind);
        if items.len() == 1 {
            head
        } else {
            head + seq![','] + spec_render_items(items.subrange(1, items.len() as int), ind)
        }
    }
}

/// The rendered fields of a non-empty object, each on its own line.
pub open spec fn spec_render_fields(fs: Seq<(Seq<char>, JVal)>, ind: Seq<char>) -> Seq<char>
    decreases fs,
{
    if fs.len() == 0 {
        Seq::empty()
    } else {
        let head = nl_ind(ind) + seq!['"'] + esc_str(fs[0].0) + seq!['"', ':', ' ']
            + spec_render(fs[0].1, ind);
        if fs.len() == 1 {
            head
        } else {
            head + seq![','] + spec_render_fields(fs.subrange(1, fs.len() as int), ind)
        }
    }
}


/// Append every character of a string slice.
fn push_str_chars(out: &mut Vec<char>, s: &str)
    ensures
        final(out)@ == old(out)@ + s@,
{
    let n = s.unicode_len();
    let mut i: usize = 0;
    while i < n
        invariant
            n == s@.len(),
            0 <= i <= n,
            out@ == old(out)@ + s@.subrange(0, i as int),
        decreases n - i,
    {
        let c = s.get_char(i);
        out.push(c);
        proof {
            assert(old(out)@ + s@.subrange(0, i + 1) =~= (old(out)@ + s@.subrange(0, i as int)).push(
                s@[i as int],
            ));
        }
        i += 1;
    }
    proof {
        assert(s@.subrange(0, s@.len() as int) =~= s@);
    }
}

/// Append a copy of the given characters.
pub(crate) fn push_copied(out: &mut Vec<char>, src: &Vec<char>)
    ensures
        final(out)@ == old(out)@ + src@,
{
    let mut i: usize = 0;
    while i < src.len()
        invariant
            0 <= i <= src@.len(),
            out@ == old(out)@ + src@.subrange(0, i as int),
        decreases src@.len() - i,
    {
        let c = src[i];
        out.push(c);
        proof {
            assert(old(out)@ + src@.subrange(0, i + 1) =~= (old(out)@ + src@.subrange(
                0,
                i as int,
            )).push(src@[i as int]));
        }
        i += 1;
    }
    proof {
        assert(src@.subrange(0, src@.len() as int) =~= src@);
    }
}

/// A decimal digit character.
fn dec_digit_char(n: u64) -> (r: char)
    requires
        n < 10,
    ensures
        r == dec_digit(n as int),
{
    if n == 0 { '0' } else if n == 1 { '1' } else if n == 2 { '2' } else if n == 3 { '3' }
    else if n == 4 { '4' } else if n == 5 { '5' } else if n == 6 { '6' } else if n == 7 { '7' }
    else if n == 8 { '8' } else { '9' }
}

/// A lower-case hexadecimal digit character.
fn hex_digit_char(n: u32) -> (r: char)
    requires
        n < 16,
    ensures
        r == hex_digit(n as int),
{
    if n < 10 { dec_digit_char(n as u64) }
    else if n == 10 { 'a' } else if n == 11 { 'b' } else if n == 12 { 'c' }
    else if n == 13 { 'd' } else if n == 14 { 'e' } else { 'f' }
}

/// Append the decimal digits of a non-negative number.
fn push_dec(out: &mut Vec<char>, n: u64)
    ensures
        final(out)@ == old(out)@ + dec_chars(n as nat),
    decreases n,
{
    if n < 10 {
        let c = dec_digit_char(n);
        out.push(c);
        proof {
            assert(old(out)@ + dec_chars(n as nat) =~= old(out)@.push(dec_digit(n as int)));
        }
    } else {
        push_dec(out, n / 10);
        let c = dec_digit_char(n % 10);
        out.push(c);
        proof {
            assert(old(out)@ + dec_chars(n as nat) =~= (old(out)@ + dec_chars((n / 10) as nat)).push(
                dec_digit((n % 10) as int),
            ));
        }
    }
}

/// Append the decimal rendering of a signed number.
pub(crate) fn push_int(out: &mut Vec<char>, n: i64)
    ensures
        final(out)@ == old(out)@ + int_chars(n as int),
{
    if n >= 0 {
        push_dec(out, n as u64);
    } else {
        out.push('-');
        let m: u64 = if n == i64::MIN {
            9223372036854775808u64
        } else {
            (-n) as u64
        };
        proof {
            assert(m as nat == (-(n as int)) as nat);
        }
        let ghost mid = out@;
        push_dec(out, m);
        proof {
            assert(mid =~= old(out)@.push('-'));
            assert(old(out)@ + int_chars(n as int) =~= old(out)@.push('-') + dec_chars(m as nat));
        }
    }
}

/// Append the escaped body of a JSON string literal.
fn push_escaped(out: &mut Vec<char>, s: &str)
    ensures
        final(out)@ == old(out)@ + esc_str(s@),
{
    let n = s.unicode_len();
    let mut i: usize = 0;
    while i < n
        invariant
            n == s@.len(),
            0 <= i <= n,
            out@ == old(out)@ + esc_str(s@.subrange(0, i as int)),
        decreases n - i,
    {
        let c = s.get_char(i);
        let ghost pre = s@.subrange(0, i as int);
        if c == '"' {
            out.push('\\');
            out.push('"');
        } else if c == '\\' {
            out.push('\\');
            out.push('\\');
        } else if c == '\n' {
            out.push('\\');
            out.push('n');
        } else if c == '\r' {
            out.push('\\');
            out.push('r');
        } else if c == '\t' {
            out.push('\\');
            out.push('t');
        } else if (c as u32) < 0x20 {
            out.push('\\');
            out.push('u');
            out.push('0');
            out.push('0');
            let h = hex_digit_char((c as u32) / 16);
            out.push(h);
            let l = hex_digit_char((c as u32) % 16);
            out.push(l);
        } else {
            out.push(c);
        }
        proof {
            lemma_esc_str_concat(pre, seq![c]);
            assert(seq![c].subrange(1, 1) =~= Seq::<char>::empty());
            assert(s@.subrange(0, i + 1) =~= pre + seq![c]);
            assert(esc_str(seq![c]) =~= esc_char(c) + esc_str(Seq::<char>::empty()));
            assert(esc_str(seq![c]) =~= esc_char(c));
            assert(out@ =~= old(out)@ + esc_str(pre) + esc_char(c));
            assert(out@ =~= old(out)@ + esc_str(s@.subrange(0, i + 1)));
        }
        i += 1;
    }
    proof {
        assert(s@.subrange(0, s@.len() as int) =~= s@);
    }
}

/// Append the rendering of a value whose line is indented by `ind`.
fn render_value(v: &JsonValue, ind: &Vec<char>, out: &mut Vec<char>)
    ensures
        final(out)@ == old(out)@ + spec_render(v@, ind@),
    decreases v, 0int,
{
    match v {
        JsonValue::Null => {
            push_str_chars(out, "null");
            proof {
                reveal_strlit("null");
                assert("null"@ =~= seq!['n', 'u', 'l', 'l']);
            }
        },
        JsonValue::Bool(b) => {
            if *b {
                push_str_chars(out, "true");
                proof {
                    reveal_strlit("true");
                    assert("true"@ =~= seq!['t', 'r', 'u', 'e']);
                }
            } else {
                push_str_chars(out, "false");
                proof {
                    reveal_strlit("false");
                    assert("false"@ =~= seq!['f', 'a', 'l', 's', 'e']);
                }
            }
        },
        JsonValue::Int(n) => {
            push_int(out, *n);
        },
        JsonValue::NumLit(s) => {
            push_str_chars(out, s.as_str());
        },
        JsonValue::Str(s) => {
            out.push('"');
            let ghost m1 = out@;
            push_escaped(out, s.as_str());
            out.push('"');
            proof {
                assert(m1 =~= old(out)@.push('"'));
                assert(out@ =~= old(out)@ + (seq!['"'] + esc_str(s@) + seq!['"']));
            }
        },
        JsonValue::Arr(items) => {
            proof {
                lemma_jvals_of(items@);
            }
            if items.len() == 0 {
                out.push('[');
                out.push(']');
                proof {
                    assert(out@ =~= old(out)@ + seq!['[', ']']);
                }
            } else {
                let mut ind2 = clone_chars(ind);
                ind2.push(' ');
                ind2.push(' ');
                out.push('[');
                let ghost m1 = out@;
                proof {
                    assert(decreases_to!(*v => *items));
                }
                render_items(items, 0, &ind2, out);
                let ghost m2 = out@;
                out.push('\n');
                push_copied(out, ind);
                out.push(']');
                proof {
                    assert(jvals_of(items@).subrange(0, jvals_of(items@).len() as int) =~= jvals_of(
                        items@,
                    ));
                    assert(m1 =~= old(out)@.push('['));
                    assert(ind2@ =~= ind@ + seq![' ', ' ']);
                    assert(out@ =~= m2 + nl_ind(ind@) + seq![']']);
                    assert(out@ =~= old(out)@ + (seq!['['] + spec_render_items(
                        jvals_of(items@),
                        ind@ + seq![' ', ' '],
                    ) + nl_ind(ind@) + seq![']']));
                }
            }
        },
        JsonValue::Obj(fs) => {
            proof {
                lemma_jfields_of(fs@);
            }
            if fs.len() == 0 {
                out.push('{');
                out.push('}');
                proof {
                    assert(out@ =~= old(out)@ + seq!['{', '}']);
                }
            } else {
                let mut ind2 = clone_chars(ind);
                ind2.push(' ');
                ind2.push(' ');
                out.push('{');
                let ghost m1 = out@;
                proof {
                    assert(decreases_to!(*v => *fs));
                }
                render_fields(fs, 0, &ind2, out);
                let ghost m2 = out@;
                out.push('\n');
                push_copied(out, ind);
                out.push('}');
                proof {
                    assert(jfields_of(fs@).subrange(0, jfields_of(fs@).len() as int) =~= jfields_of(
                        fs@,
                    ));
                    assert(m1 =~= old(out)@.push('{'));
                    assert(ind2@ =~= ind@ + seq![' ', ' ']);
                    assert(out@ =~= m2 + nl_ind(ind@) + seq!['}']);
                    assert(out@ =~= old(out)@ + (seq!['{'] + spec_render_fields(
                        jfields_of(fs@),
                        ind@ + seq![' ', ' '],
                    ) + nl_ind(ind@) + seq!['}']));
                }
            }
        },
    }
}

/// Append the renderings of the array elements from position `i` on.
fn render_items(items: &Vec<JsonValue>, i: usize, ind: &Vec<char>, out: &mut Vec<char>)
    requires
        i < items@.len(),
    ensures
        final(out)@ == old(out)@ + spec_render_items(
            jvals_of(items@).subrange(i as int, items@.len() as int),
            ind@,
        ),
    decreases items, items@.len() - i,
{
    proof {
        lemma_jvals_of(items@);
    }
    let n = items.len();
    let ghost tail = jvals_of(items@).subrange(i as int, items@.len() as int);
    out.push('\n');
    push_copied(out, ind);
    let ghost m1 = out@;
    proof {
        assert(decreases_to!(*items => items@[i as int]));
    }
    render_value(&items[i], ind, out);
    proof {
        assert(m1 =~= old(out)@ + nl_ind(ind@));
        assert(tail[0] == jval_at(items@[i as int]));
    }
    if i + 1 < n {
        out.push(',');
        let ghost m2 = out@;
        render_items(items, i + 1, ind, out);
        proof {
            assert(tail.subrange(1, tail.len() as int) =~= jvals_of(items@).subrange(
                i + 1,
                items@.len() as int,
            ));
            assert(m2 =~= old(out)@ + (nl_ind(ind@) + spec_render(tail[0], ind@)) + seq![',']);
            assert(out@ =~= old(out)@ + ((nl_ind(ind@) + spec_render(tail[0], ind@)) + seq![',']
                + spec_render_items(tail.subrange(1, tail.len() as int), ind@)));
            assert(out@ =~= old(out)@ + spec_render_items(tail, ind@));
        }
    } else {
        proof {
            assert(tail.len() == 1);
            assert(out@ =~= old(out)@ + (nl_ind(ind@) + spec_render(tail[0], ind@)));
            assert(out@ =~= old(out)@ + spec_render_items(tail, ind@));
        }
    }
}

/// Append the renderings of the object fields from position `i` on.
fn render_fields(fs: &Vec<(String, JsonValue)>, i: usize, ind: &Vec<char>, out: &mut Vec<char>)
    requires
        i < fs@.len(),
    ensures
        final(out)@ == old(out)@ + spec_render_fields(
            jfields_of(fs@).subrange(i as int, fs@.len() as int),
            ind@,
        ),
    decreases fs, fs@.len() - i,
{
    proof {
        lemma_jfields_of(fs@);
    }
    let n = fs.len();
    let ghost tail = jfields_of(fs@).subrange(i as int, fs@.len() as int);
    out.push('\n');
    push_copied(out, ind);
    out.push('"');
    push_escaped(out, fs[i].0.as_str());
    out.push('"');
    out.push(':');
    out.push(' ');
    let ghost m1 = out@;
    proof {
        assert(decreases_to!(*fs => fs@[i as int]));
        assert(decreases_to!(fs@[i as int] => fs@[i as int].1));
    }
    render_value(&fs[i].1, ind, out);
    proof {
        assert(tail[0] == (fs@[i as int].0@, jval_at(fs@[i as int].1)));
        assert(m1 =~= old(out)@ + (nl_ind(ind@) + seq!['"'] + esc_str(tail[0].0) + seq![
            '"',
            ':',
            ' ',
        ]));
    }
    if i + 1 < n {
        out.push(',');
        let ghost m2 = out@;
        render_fields(fs, i + 1, ind, out);
        proof {
            assert(tail.subrange(1, tail.len() as int) =~= jfields_of(fs@).subrange(
                i + 1,
                fs@.len() as int,
            ));
            let head = nl_ind(ind@) + seq!['"'] + esc_str(tail[0].0) + seq!['"', ':', ' ']
                + spec_render(tail[0].1, ind@);
            assert(m2 =~= old(out)@ + head + seq![',']);
            assert(out@ =~= old(out)@ + (head + seq![','] + spec_render_fields(
                tail.subrange(1, tail.len() as int),
                ind@,
            )));
            assert(out@ =~= old(out)@ + spec_render_fields(tail, ind@));
        }
    } else {
        proof {
            assert(tail.len() == 1);
            let head = nl_ind(ind@) + seq!['"'] + esc_str(tail[0].0) + seq!['"', ':', ' ']
                + spec_render(tail[0].1, ind@);
            assert(out@ =~= old(out)@ + head);
            assert(out@ =~= old(out)@ + spec_render_fields(tail, ind@));
        }
    }
}

/// A copy of a character vector.
fn clone_chars(src: &Vec<char>) -> (r: Vec<char>)
    ensures
        r@ == src@,
{
    let mut r: Vec<char> = Vec::new();
    push_copied(&mut r, src);
    proof {
        assert(Seq::<char>::empty() + src@ =~= src@);
    }
    r
}

impl JsonValue {
    /// The pretty rendering of this value as characters.
    pub fn render(&self) -> (r: Vec<char>)
        ensures
            r@ == spec_render(self@, Seq::<char>::empty()),
    {
        let ind: Vec<char> = Vec::new();
        let mut out: Vec<char> = Vec::new();
        render_value(self, &ind, &mut out);
        proof {
            assert(Seq::<char>::empty() + spec_render(jval_at(*self), Seq::<char>::empty())
                =~= spec_render(jval_at(*self), Seq::<char>::empty()));
        }
        out
    }

    /// The pretty rendering of this value as a string.
    pub fn to_pretty_string(&self) -> (r: String)
        ensures
            r@ == spec_render(self@, Seq::<char>::empty()),
    {
        let cs = self.render();
        string_from_chars(&cs)
    }
}

/// Relies on `String`'s `FromIterator<char>`: collecting characters yields
/// the string of exactly those characters, in order.
#[verifier::external_body]
pub(crate) fn string_from_chars(cs: &Vec<char>) -> (r: String)
    ensures
        r@ == cs@,
{
    String::from_iter(cs.iter().copied())
}


/// JSON insignificant whitespace.
pub open spec fn is_ws(c: char) -> bool {
    c == ' ' || c == '\n' || c == '\r' || c == '\t'
}

/// A decimal digit.
pub open spec fn is_digit(c: char) -> bool {
    '0' <= c && c <= '9'
}

/// The numeric value of a decimal digit.
pub open spec fn digit_val(c: char) -> int {
    c as u32 as int - '0' as u32 as int
}

/// The numeric value of a hexadecimal digit, or -1 where it is none.
pub open spec fn hex_val(c: char) -> int {
    if '0' <= c && c <= '9' {
        c as u32 as int - '0' as u32 as int
    } else if 'a' <= c && c <= 'f' {
        c as u32 as int - 'a' as u32 as int + 10
    } else if 'A' <= c && c <= 'F' {
        c as u32 as int - 'A' as u32 as int + 10
    } else {
        -1
    }
}

/// The first position at or after `p` that holds no whitespace.
pub open spec fn sp_ws(cs: Seq<char>, p: int) -> int
    decreases cs.len() - p,
{
    if p < 0 || p >= cs.len() {
        p
    } else if is_ws(cs[p]) {
        sp_ws(cs, p + 1)
    } else {
        p
    }
}

/// Skipping whitespace stays between `p` and the end.
pub proof fn lemma_sp_ws(cs: Seq<char>, p: int)
    requires
        0 <= p <= cs.len(),
    ensures
        p <= sp_ws(cs, p) <= cs.len(),
    decreases cs.len() - p,
{
    if p < cs.len() && is_ws(cs[p]) {
        lemma_sp_ws(cs, p + 1);
    }
}

/// The first position at or after `p` that holds no decimal digit.
pub open spec fn sp_digits_end(cs: Seq<char>, p: int) -> int
    decreases cs.len() - p,
{
    if p < 0 || p >= cs.len() {
        p
    } else if is_digit(cs[p]) {
        sp_digits_end(cs, p + 1)
    } else {
        p
    }
}

/// Scanning digits stays between `p` and the end.
pub proof fn lemma_sp_digits_end(cs: Seq<char>, p: int)
    requires
        0 <= p <= cs.len(),
    ensures
        p <= sp_digits_end(cs, p) <= cs.len(),
    decreases cs.len() - p,
{
    if p < cs.len() && is_digit(cs[p]) {
        lemma_sp_digits_end(cs, p + 1);
    }
}

/// The value of the digit run `cs[p..q)`.
pub open spec fn digits_val(cs: Seq<char>, p: int, q: int) -> int
    decreases q - p,
{
    if q <= p {
        0
    } else {
        digits_val(cs, p, q - 1) * 10 + digit_val(cs[q - 1])
    }
}

/// A character that can stand inside a JSON number lexeme.
pub open spec fn is_num_char(c: char) -> bool {
    is_digit(c) || c == '-' || c == '+' || c == '.' || c == 'e' || c == 'E'
}

/// The first position at or after `p` that holds no number character.
pub open spec fn sp_num_end(cs: Seq<char>, p: int) -> int
    decreases cs.len() - p,
{
    if p < 0 || p >= cs.len() {
        p
    } else if is_num_char(cs[p]) {
        sp_num_end(cs, p + 1)
    } else {
        p
    }
}

/// Scanning number characters stays between `p` and the end.
pub proof fn lemma_sp_num_end(cs: Seq<char>, p: int)
    requires
        0 <= p <= cs.len(),
    ensures
        p <= sp_num_end(cs, p) <= cs.len(),
    decreases cs.len() - p,
{
    if p < cs.len() && is_num_char(cs[p]) {
        lemma_sp_num_end(cs, p + 1);
    }
}

/// Scanning number characters runs to the first position holding none.
proof fn lemma_num_run(cs: Seq<char>, p: int, q: int)
    requires
        0 <= p <= q <= cs.len(),
        forall|j: int| p <= j < q ==> is_num_char(cs[j]),
        q == cs.len() || !is_num_char(cs[q]),
    ensures
        sp_num_end(cs, p) == q,
    decreases q - p,
{
    if p < q {
        lemma_num_run(cs, p + 1, q);
    }
}

/// The end of a number lexeme's fraction part, starting at `i`: `i` itself
/// where no dot stands there, the end of the dot's digit run otherwise,
/// and -1 where the dot has no digits.
pub open spec fn num_frac_end(s: Seq<char>, i: int) -> int {
    if 0 <= i && i < s.len() && s[i] == '.' {
        let j = sp_digits_end(s, i + 1);
        if j <= i + 1 {
            -1
        } else {
            j
        }
    } else {
        i
    }
}

/// The end of a number lexeme's exponent part, starting at `i`: `i` itself
/// where no exponent marker stands there, the end of the marker's signed
/// digit run otherwise, and -1 where those digits are missing.
pub open spec fn num_exp_end(s: Seq<char>, i: int) -> int {
    if 0 <= i && i < s.len() && (s[i] == 'e' || s[i] == 'E') {
        let k = if i + 1 < s.len() && (s[i + 1] == '+' || s[i + 1] == '-') {
            i + 2
        } else {
            i + 1
        };
        let m = sp_digits_end(s, k);
        if m <= k {
            -1
        } else {
            m
        }
    } else {
        i
    }
}

/// Whether a run of characters is one complete JSON number: an optional
/// minus sign, digits, an optional fraction, an optional exponent, and
/// nothing else.
pub open spec fn num_body_ok(s: Seq<char>) -> bool {
    let i0: int = if s.len() > 0 && s[0] == '-' {
        1
    } else {
        0
    };
    let i1 = sp_digits_end(s, i0);
    let i2 = num_frac_end(s, i1);
    let i3 = num_exp_end(s, i2);
    i1 > i0 && i2 >= 0 && i3 == s.len()
}

/// Whether a number lexeme is a plain integer: an optional minus sign and
/// digits only.
pub open spec fn is_plain_int(s: Seq<char>) -> bool {
    let i0: int = if s.len() > 0 && s[0] == '-' {
        1
    } else {
        0
    };
    s.len() > i0 && sp_digits_end(s, i0) == s.len()
}

/// The value of a plain integer lexeme.
pub open spec fn plain_int_val(s: Seq<char>) -> int {
    if s.len() > 0 && s[0] == '-' {
        -digits_val(s, 1, s.len() as int)
    } else {
        digits_val(s, 0, s.len() as int)
    }
}

/// The parse of a number standing at `p`: the whole lexeme is taken; a
/// plain integer within the signed 64-bit range becomes a number value,
/// any other well-formed number lexeme is carried opaquely, and a
/// malformed lexeme is refused.
pub open spec fn sp_number(cs: Seq<char>, p: int) -> Option<(JVal, int)> {
    let q = sp_num_end(cs, p);
    if q <= p {
        None
    } else {
        let s = cs.subrange(p, q);
        if !num_body_ok(s) {
            None
        } else if is_plain_int(s) {
            let v = plain_int_val(s);
            if i64::MIN <= v <= i64::MAX {
                Some((JVal::Int(v), q))
            } else {
                Some((JVal::NumLit(s), q))
            }
        } else {
            Some((JVal::NumLit(s), q))
        }
    }
}

/// The parse of a string body standing just after the opening quote:
/// characters and escapes up to the closing quote. Unescaped control
/// characters are refused, as are `\u` escapes in the surrogate range.
pub open spec fn sp_string(cs: Seq<char>, p: int) -> Option<(Seq<char>, int)>
    decreases cs.len() - p,
{
    if p < 0 || p >= cs.len() {
        None
    } else if cs[p] == '"' {
        Some((Seq::empty(), p + 1))
    } else if cs[p] == '\\' {
        if p + 1 >= cs.len() {
            None
        } else {
            let e = cs[p + 1];
            if e == 'u' {
                if p + 5 >= cs.len() {
                    None
                } else {
                    let h1 = hex_val(cs[p + 2]);
                    let h2 = hex_val(cs[p + 3]);
                    let h3 = hex_val(cs[p + 4]);
                    let h4 = hex_val(cs[p + 5]);
                    if h1 < 0 || h2 < 0 || h3 < 0 || h4 < 0 {
                        None
                    } else {
                        let code = h1 * 4096 + h2 * 256 + h3 * 16 + h4;
                        if 0xD800 <= code < 0xE000 {
                            None
                        } else {
                            match sp_string(cs, p + 6) {
                                Some(rq) => Some((seq![(code as u32) as char] + rq.0, rq.1)),
                                None => None,
                            }
                        }
                    }
                }
            } else {
                let c = if e == '"' {
                    '"'
                } else if e == '\\' {
                    '\\'
                } else if e == '/' {
                    '/'
                } else if e == 'n' {
                    '\n'
                } else if e == 'r' {
                    '\r'
                } else if e == 't' {
                    '\t'
                } else if e == 'b' {
                    8u32 as char
                } else if e == 'f' {
                    12u32 as char
                } else {
                    ' '
                };
                if e == '"' || e == '\\' || e == '/' || e == 'n' || e == 'r' || e == 't' || e
                    == 'b' || e == 'f' {
                    match sp_string(cs, p + 2) {
                        Some(rq) => Some((seq![c] + rq.0, rq.1)),
                        None => None,
                    }
                } else {
                    None
                }
            }
        }
    } else if (cs[p] as u32) < 0x20 {
        None
    } else {
        match sp_string(cs, p + 1) {
            Some(rq) => Some((seq![cs[p]] + rq.0, rq.1)),
            None => None,
        }
    }
}

/// A parsed string body ends after `p`, within the input.
pub proof fn lemma_sp_string(cs: Seq<char>, p: int)
    requires
        0 <= p <= cs.len(),
    ensures
        match sp_string(cs, p) {
            Some(rq) => p < rq.1 <= cs.len(),
            None => true,
        },
    decreases cs.len() - p,
{
    if p < cs.len() {
        if cs[p] == '\\' {
            if p + 1 < cs.len() && cs[p + 1] == 'u' {
                if p + 6 <= cs.len() {
                    lemma_sp_string(cs, p + 6);
                }
            } else if p + 2 <= cs.len() {
                lemma_sp_string(cs, p + 2);
            }
        } else if cs[p] != '"' {
            lemma_sp_string(cs, p + 1);
        }
    }
}

/// The parse of a value standing at or after `p`, whitespace skipped first.
pub open spec fn sp_value(cs: Seq<char>, p: int) -> Option<(JVal, int)>
    decreases cs.len() - p, 2int,
{
    let q = sp_ws(cs, p);
    if q < p || q >= cs.len() {
        None
    } else if cs[q] == 'n' {
        if q + 4 <= cs.len() && cs[q + 1] == 'u' && cs[q + 2] == 'l' && cs[q + 3] == 'l' {
            Some((JVal::Null, q + 4))
        } else {
            None
        }
    } else if cs[q] == 't' {
        if q + 4 <= cs.len() && cs[q + 1] == 'r' && cs[q + 2] == 'u' && cs[q + 3] == 'e' {
            Some((JVal::Bool(true), q + 4))
        } else {
            None
        }
    } else if cs[q] == 'f' {
        if q + 5 <= cs.len() && cs[q + 1] == 'a' && cs[q + 2] == 'l' && cs[q + 3] == 's' && cs[q
            + 4] == 'e' {
            Some((JVal::Bool(false), q + 5))
        } else {
            None
        }
    } else if cs[q] == '"' {
        match sp_string(cs, q + 1) {
            Some(sq) => Some((JVal::Str(sq.0), sq.1)),
            None => None,
        }
    } else if cs[q] == '-' || is_digit(cs[q]) {
        sp_number(cs, q)
    } else if cs[q] == '[' {
        let q1 = sp_ws(cs, q + 1);
        if q + 1 <= q1 < cs.len() && cs[q1] == ']' {
            Some((JVal::Arr(Seq::empty()), q1 + 1))
        } else {
            match sp_elems(cs, q + 1) {
                Some(vq) => Some((JVal::Arr(vq.0), vq.1)),
                None => None,
            }
        }
    } else if cs[q] == '{' {
        let q1 = sp_ws(cs, q + 1);
        if q + 1 <= q1 < cs.len() && cs[q1] == '}' {
            Some((JVal::Obj(Seq::empty()), q1 + 1))
        } else {
            match sp_members(cs, q + 1) {
                Some(fq) => Some((JVal::Obj(fq.0), fq.1)),
                None => None,
            }
        }
    } else {
        None
    }
}

/// The parse of the elements of a non-empty array, standing after `[`
/// or after a `,`.
pub open spec fn sp_elems(cs: Seq<char>, p: int) -> Option<(Seq<JVal>, int)>
    decreases cs.len() - p, 3int,
{
    if p < 0 {
        None
    } else {
        match sp_value(cs, p) {
            None => None,
            Some(vq) => {
                let p2 = vq.1;
                if p2 <= p || p2 > cs.len() {
                    None
                } else {
                    let q2 = sp_ws(cs, p2);
                    if q2 < p2 || q2 >= cs.len() {
                        None
                    } else if cs[q2] == ',' {
                        match sp_elems(cs, q2 + 1) {
                            Some(vsq) => Some((seq![vq.0] + vsq.0, vsq.1)),
                            None => None,
                        }
                    } else if cs[q2] == ']' {
                        Some((seq![vq.0], q2 + 1))
                    } else {
                        None
                    }
                }
            },
        }
    }
}

/// The parse of the fields of a non-empty object, standing after `{`
/// or after a `,`.
pub open spec fn sp_members(cs: Seq<char>, p: int) -> Option<(Seq<(Seq<char>, JVal)>, int)>
    decreases cs.len() - p, 3int,
{
    if p < 0 {
        None
    } else {
        let qk = sp_ws(cs, p);
        if qk < p || qk >= cs.len() || cs[qk] != '"' {
            None
        } else {
            match sp_string(cs, qk + 1) {
                None => None,
                Some(kq) => {
                    let pc = sp_ws(cs, kq.1);
                    if pc < kq.1 || pc >= cs.len() || cs[pc] != ':' {
                        None
                    } else if pc + 1 <= p {
                        None
                    } else {
                        match sp_value(cs, pc + 1) {
                            None => None,
                            Some(vq) => {
                                let p2 = vq.1;
                                if p2 <= p || p2 > cs.len() {
                                    None
                                } else {
                                    let q2 = sp_ws(cs, p2);
                                    if q2 < p2 || q2 >= cs.len() {
                                        None
                                    } else if cs[q2] == ',' {
                                        match sp_members(cs, q2 + 1) {
                                            Some(fsq) => Some(
                                                (seq![(kq.0, vq.0)] + fsq.0, fsq.1),
                                            ),
                                            None => None,
                                        }
                                    } else if cs[q2] == '}' {
                                        Some((seq![(kq.0, vq.0)], q2 + 1))
                                    } else {
                                        None
                                    }
                                }
                            },
                        }
                    }
                },
            }
        }
    }
}

/// The parse of a whole document: one value with nothing but whitespace
/// after it.
pub open spec fn spec_parse(cs: Seq<char>) -> Option<JVal> {
    match sp_value(cs, 0) {
        None => None,
        Some(vq) => {
            if 0 <= vq.1 <= cs.len() && sp_ws(cs, vq.1) == cs.len() {
                Some(vq.0)
            } else {
                None
            }
        },
    }
}


/// The characters of a string slice as a vector.
pub fn chars_of_str(s: &str) -> (r: Vec<char>)
    ensures
        r@ == s@,
{
    let n = s.unicode_len();
    let mut r: Vec<char> = Vec::new();
    let mut i: usize = 0;
    while i < n
        invariant
            n == s@.len(),
            0 <= i <= n,
            r@ == s@.subrange(0, i as int),
        decreases n - i,
    {
        let c = s.get_char(i);
        r.push(c);
        proof {
            assert(s@.subrange(0, i + 1) =~= s@.subrange(0, i as int).push(s@[i as int]));
        }
        i += 1;
    }
    proof {
        assert(s@.subrange(0, s@.len() as int) =~= s@);
    }
    r
}

/// The position after any whitespace standing at `p`.
fn ws_end(cs: &Vec<char>, p: usize) -> (r: usize)
    requires
        p <= cs@.len(),
    ensures
        r as int == sp_ws(cs@, p as int),
        p <= r <= cs@.len(),
{
    let mut i: usize = p;
    while i < cs.len() && (cs[i] == ' ' || cs[i] == '\n' || cs[i] == '\r' || cs[i] == '\t')
        invariant
            p <= i <= cs@.len(),
            sp_ws(cs@, p as int) == sp_ws(cs@, i as int),
        decreases cs@.len() - i,
    {
        i += 1;
    }
    i
}

/// The numeric value of a hexadecimal digit character.
fn hex_val_char(c: char) -> (r: Option<u32>)
    ensures
        hex_val(c) >= 0 ==> r == Some(hex_val(c) as u32),
        hex_val(c) < 0 ==> r is None,
{
    if '0' <= c && c <= '9' {
        Some(c as u32 - '0' as u32)
    } else if 'a' <= c && c <= 'f' {
        Some(c as u32 - 'a' as u32 + 10)
    } else if 'A' <= c && c <= 'F' {
        Some(c as u32 - 'A' as u32 + 10)
    } else {
        None
    }
}

/// Relies on `char::from_u32`: a value below the surrogate range, or above
/// it and within the Unicode range, is the scalar value of exactly one
/// character.
#[verifier::external_body]
fn char_from_u32(u: u32) -> (c: char)
    requires
        u < 0xD800 || (0xE000 <= u && u <= 0x10FFFF),
    ensures
        c as u32 == u,
{
    char::from_u32(u).unwrap()
}

/// Parse a string body standing just after its opening quote.
#[verifier::rlimit(50)]
fn parse_string_at(cs: &Vec<char>, p: usize) -> (r: Option<(Vec<char>, usize)>)
    requires
        p <= cs@.len(),
    ensures
        match sp_string(cs@, p as int) {
            Some(rq) => match r {
                Some(x) => x.0@ == rq.0 && x.1 as int == rq.1 && x.1 <= cs@.len(),
                None => false,
            },
            None => r is None,
        },
    decreases cs@.len() - p,
{
    broadcast use vstd::utf8::char_u32_cast;

    if p >= cs.len() {
        return None;
    }
    let c0 = cs[p];
    if c0 == '"' {
        let out: Vec<char> = Vec::new();
        proof {
            assert(out@ =~= Seq::<char>::empty());
        }
        return Some((out, p + 1));
    }
    if c0 == '\\' {
        if p + 1 >= cs.len() {
            return None;
        }
        let e = cs[p + 1];
        if e == 'u' {
            if cs.len() - p <= 5 {
                return None;
            }
            let h1 = hex_val_char(cs[p + 2]);
            let h2 = hex_val_char(cs[p + 3]);
            let h3 = hex_val_char(cs[p + 4]);
            let h4 = hex_val_char(cs[p + 5]);
            match (h1, h2, h3, h4) {
                (Some(a), Some(b), Some(c), Some(d)) => {
                    let code: u32 = a * 4096 + b * 256 + c * 16 + d;
                    if 0xD800 <= code && code < 0xE000 {
                        return None;
                    }
                    let ch = char_from_u32(code);
                    match parse_string_at(cs, p + 6) {
                        Some(rq) => {
                            let (mut rest, q) = rq;
                            let ghost restv = rest@;
                            rest.insert(0, ch);
                            proof {
                                assert(rest@ =~= seq![ch] + restv);
                                assert((code as u32) as char == ch);
                            }
                            Some((rest, q))
                        },
                        None => None,
                    }
                },
                _ => None,
            }
        } else {
            let give: Option<char> = if e == '"' {
                Some('"')
            } else if e == '\\' {
                Some('\\')
            } else if e == '/' {
                Some('/')
            } else if e == 'n' {
                Some('\n')
            } else if e == 'r' {
                Some('\r')
            } else if e == 't' {
                Some('\t')
            } else if e == 'b' {
                Some(char_from_u32(8))
            } else if e == 'f' {
                Some(char_from_u32(12))
            } else {
                None
            };
            match give {
                Some(c) => {
                    match parse_string_at(cs, p + 2) {
                        Some(rq) => {
                            let (mut rest, q) = rq;
                            let ghost restv = rest@;
                            rest.insert(0, c);
                            proof {
                                assert(rest@ =~= seq![c] + restv);
                            }
                            Some((rest, q))
                        },
                        None => None,
                    }
                },
                None => None,
            }
        }
    } else if (c0 as u32) < 0x20 {
        None
    } else {
        match parse_string_at(cs, p + 1) {
            Some(rq) => {
                let (mut rest, q) = rq;
                let ghost restv = rest@;
                rest.insert(0, c0);
                proof {
                    assert(rest@ =~= seq![c0] + restv);
                }
                Some((rest, q))
            },
            None => None,
        }
    }
}

/// Every character of a digit run is a digit.
proof fn lemma_sp_digits_all(cs: Seq<char>, p: int)
    requires
        0 <= p <= cs.len(),
    ensures
        forall|j: int| p <= j < sp_digits_end(cs, p) ==> is_digit(cs[j]),
    decreases cs.len() - p,
{
    if p < cs.len() && is_digit(cs[p]) {
        lemma_sp_digits_all(cs, p + 1);
    }
}

/// A digit run's value only grows as the run extends.
proof fn lemma_digits_val_mono(cs: Seq<char>, p: int, q1: int, q2: int)
    requires
        p <= q1 <= q2,
        forall|j: int| p <= j < q2 ==> is_digit(cs[j]),
    ensures
        0 <= digits_val(cs, p, q1) <= digits_val(cs, p, q2),
    decreases q2 - p,
{
    if q2 > q1 {
        lemma_digits_val_mono(cs, p, q1, q2 - 1);
        assert(digit_val(cs[q2 - 1]) >= 0);
    } else if q1 > p {
        lemma_digits_val_mono(cs, p, q1 - 1, q1 - 1);
        assert(digit_val(cs[q1 - 1]) >= 0);
    }
}

/// Whether a character can stand inside a number lexeme.
fn num_char(c: char) -> (r: bool)
    ensures
        r == is_num_char(c),
{
    ('0' <= c && c <= '9') || c == '-' || c == '+' || c == '.' || c == 'e' || c == 'E'
}

/// The position after any digits standing at `from` in a lexeme.
fn digits_end_in(run: &Vec<char>, from: usize) -> (r: usize)
    requires
        from <= run@.len(),
    ensures
        r as int == sp_digits_end(run@, from as int),
        from <= r <= run@.len(),
{
    let mut i: usize = from;
    while i < run.len() && '0' <= run[i] && run[i] <= '9'
        invariant
            from <= i <= run@.len(),
            sp_digits_end(run@, from as int) == sp_digits_end(run@, i as int),
        decreases run@.len() - i,
    {
        i += 1;
    }
    i
}

/// Parse the number lexeme standing at `p` (no leading whitespace): a
/// plain integer within the signed 64-bit range becomes a number value;
/// any other well-formed lexeme is carried opaquely; a malformed one is
/// refused.
#[verifier::rlimit(100)]
#[verifier::loop_isolation(false)]
fn parse_number_at(cs: &Vec<char>, p: usize) -> (r: Option<(JsonValue, usize)>)
    requires
        p <= cs@.len(),
    ensures
        match sp_number(cs@, p as int) {
            Some(vq) => match r {
                Some(x) => jval_at(x.0) == vq.0 && x.1 as int == vq.1 && x.1 <= cs@.len(),
                None => false,
            },
            None => r is None,
        },
{
    proof {
        lemma_sp_num_end(cs@, p as int);
    }
    let ghost qspec = sp_num_end(cs@, p as int);
    let mut run: Vec<char> = Vec::new();
    let mut i: usize = p;
    proof {
        assert(run@ =~= cs@.subrange(p as int, p as int));
    }
    while i < cs.len() && num_char(cs[i])
        invariant
            p <= i <= cs@.len(),
            qspec == sp_num_end(cs@, p as int),
            sp_num_end(cs@, i as int) == qspec,
            run@ == cs@.subrange(p as int, i as int),
        decreases cs@.len() - i,
    {
        proof {
            assert(is_num_char(cs@[i as int]));
            assert(sp_num_end(cs@, i as int) == sp_num_end(cs@, i + 1));
        }
        let c = cs[i];
        run.push(c);
        proof {
            assert(cs@.subrange(p as int, i + 1) =~= cs@.subrange(p as int, i as int).push(
                cs@[i as int],
            ));
        }
        i += 1;
    }
    proof {
        assert(i as int == qspec);
    }
    if i == p {
        return None;
    }
    let n = run.len();
    let ghost sv = run@;
    proof {
        assert(sv == cs@.subrange(p as int, qspec));
        assert(sv.len() == qspec - p);
    }
    // the lexeme's grammar, mirrored from the model
    let i0: usize = if run[0] == '-' {
        1
    } else {
        0
    };
    let ghost i1s = sp_digits_end(sv, i0 as int);
    let i1 = digits_end_in(&run, i0);
    if i1 <= i0 {
        return None;
    }
    let i2: usize = if i1 < n && run[i1] == '.' {
        let j = digits_end_in(&run, i1 + 1);
        if j <= i1 + 1 {
            proof {
                assert(num_frac_end(sv, i1 as int) == -1);
            }
            return None;
        }
        j
    } else {
        i1
    };
    proof {
        assert(i2 as int == num_frac_end(sv, i1 as int));
    }
    let i3: usize = if i2 < n && (run[i2] == 'e' || run[i2] == 'E') {
        let k: usize = if i2 + 1 < n && (run[i2 + 1] == '+' || run[i2 + 1] == '-') {
            i2 + 2
        } else {
            i2 + 1
        };
        let m = digits_end_in(&run, k);
        if m <= k {
            proof {
                assert(num_exp_end(sv, i2 as int) == -1);
            }
            return None;
        }
        m
    } else {
        i2
    };
    proof {
        assert(i3 as int == num_exp_end(sv, i2 as int));
    }
    if i3 != n {
        return None;
    }
    proof {
        assert(num_body_ok(sv));
    }
    if i1 == n {
        // a plain integer: read its value, unless it leaves the range
        proof {
            assert(is_plain_int(sv));
            lemma_sp_digits_all(sv, i0 as int);
        }
        let neg = i0 == 1;
        let bound: u128 = if neg {
            9223372036854775808u128
        } else {
            9223372036854775807u128
        };
        let mut acc: u128 = 0;
        let mut t: usize = i0;
        while t < n
            invariant
                i0 <= t <= n,
                n == sv.len(),
                sv == run@,
                i0 as int == (if sv.len() > 0 && sv[0] == '-' { 1int } else { 0 }),
                sp_digits_end(sv, i0 as int) == n,
                forall|j: int| i0 <= j < n ==> is_digit(sv[j]),
                acc as int == digits_val(sv, i0 as int, t as int),
                acc <= bound,
                bound == (if neg { 9223372036854775808u128 } else { 9223372036854775807u128 }),
                neg == (i0 == 1),
            decreases n - t,
        {
            let d: u32 = run[t] as u32 - '0' as u32;
            let next: u128 = acc * 10 + d as u128;
            proof {
                assert(digits_val(sv, i0 as int, t + 1) == digits_val(sv, i0 as int, t as int)
                    * 10 + digit_val(sv[t as int]));
            }
            if next > bound {
                proof {
                    lemma_digits_val_mono(sv, i0 as int, t + 1, n as int);
                    assert(digits_val(sv, i0 as int, n as int) >= next as int);
                    assert(!(i64::MIN <= plain_int_val(sv) <= i64::MAX));
                }
                let lit = string_from_chars(&run);
                return Some((JsonValue::NumLit(lit), i));
            }
            acc = next;
            t += 1;
        }
        let v: i64 = if neg {
            if acc == 9223372036854775808u128 {
                i64::MIN
            } else {
                -(acc as i64)
            }
        } else {
            acc as i64
        };
        proof {
            assert(v as int == plain_int_val(sv));
        }
        Some((JsonValue::Int(v), i))
    } else {
        proof {
            assert(!is_plain_int(sv));
        }
        let lit = string_from_chars(&run);
        Some((JsonValue::NumLit(lit), i))
    }
}

/// Parse one value standing at or after `p`.
#[verifier::rlimit(60)]
fn parse_value_at(cs: &Vec<char>, p: usize) -> (r: Option<(JsonValue, usize)>)
    requires
        p <= cs@.len(),
    ensures
        match sp_value(cs@, p as int) {
            Some(vq) => match r {
                Some(x) => x.0@ == vq.0 && x.1 as int == vq.1 && x.1 <= cs@.len(),
                None => false,
            },
            None => r is None,
        },
    decreases cs@.len() - p, 2int,
{
    let q = ws_end(cs, p);
    if q >= cs.len() {
        return None;
    }
    let c = cs[q];
    if c == 'n' {
        if cs.len() - q >= 4 && cs[q + 1] == 'u' && cs[q + 2] == 'l' && cs[q + 3] == 'l' {
            Some((JsonValue::Null, q + 4))
        } else {
            None
        }
    } else if c == 't' {
        if cs.len() - q >= 4 && cs[q + 1] == 'r' && cs[q + 2] == 'u' && cs[q + 3] == 'e' {
            Some((JsonValue::Bool(true), q + 4))
        } else {
            None
        }
    } else if c == 'f' {
        if cs.len() - q >= 5 && cs[q + 1] == 'a' && cs[q + 2] == 'l' && cs[q + 3] == 's' && cs[q
            + 4] == 'e' {
            Some((JsonValue::Bool(false), q + 5))
        } else {
            None
        }
    } else if c == '"' {
        match parse_string_at(cs, q + 1) {
            Some(x) => {
                let (body, q2) = x;
                let st = string_from_chars(&body);
                Some((JsonValue::Str(st), q2))
            },
            None => None,
        }
    } else if c == '-' || ('0' <= c && c <= '9') {
        parse_number_at(cs, q)
    } else if c == '[' {
        let q1 = ws_end(cs, q + 1);
        if q1 < cs.len() && cs[q1] == ']' {
            let items: Vec<JsonValue> = Vec::new();
            proof {
                assert(jvals_of(items@) =~= Seq::<JVal>::empty());
            }
            Some((JsonValue::Arr(items), q1 + 1))
        } else {
            match parse_elems_at(cs, q + 1) {
                Some(x) => {
                    let (items, q2) = x;
                    Some((JsonValue::Arr(items), q2))
                },
                None => None,
            }
        }
    } else if c == '{' {
        let q1 = ws_end(cs, q + 1);
        if q1 < cs.len() && cs[q1] == '}' {
            let fields: Vec<(String, JsonValue)> = Vec::new();
            proof {
                assert(jfields_of(fields@) =~= Seq::<(Seq<char>, JVal)>::empty());
            }
            Some((JsonValue::Obj(fields), q1 + 1))
        } else {
            match parse_members_at(cs, q + 1) {
                Some(x) => {
                    let (fields, q2) = x;
                    Some((JsonValue::Obj(fields), q2))
                },
                None => None,
            }
        }
    } else {
        None
    }
}

/// Parse the elements of a non-empty array, standing after `[` or `,`.
#[verifier::rlimit(60)]
fn parse_elems_at(cs: &Vec<char>, p: usize) -> (r: Option<(Vec<JsonValue>, usize)>)
    requires
        p <= cs@.len(),
    ensures
        match sp_elems(cs@, p as int) {
            Some(vq) => match r {
                Some(x) => jvals_of(x.0@) == vq.0 && x.1 as int == vq.1 && x.1 <= cs@.len(),
                None => false,
            },
            None => r is None,
        },
    decreases cs@.len() - p, 3int,
{
    match parse_value_at(cs, p) {
        None => None,
        Some(x) => {
            let (v, p2) = x;
            if p2 <= p {
                return None;
            }
            let q2 = ws_end(cs, p2);
            if q2 >= cs.len() {
                return None;
            }
            let ghost vg = v;
            if cs[q2] == ',' {
                match parse_elems_at(cs, q2 + 1) {
                    Some(y) => {
                        let (mut items, p3) = y;
                        let ghost itemsv = items@;
                        items.insert(0, v);
                        proof {
                            assert(items@ =~= seq![vg] + itemsv);
                            lemma_jvals_of(items@);
                            lemma_jvals_of(itemsv);
                            assert(jvals_of(items@) =~= seq![jval_at(vg)] + jvals_of(itemsv));
                        }
                        Some((items, p3))
                    },
                    None => None,
                }
            } else if cs[q2] == ']' {
                let mut items: Vec<JsonValue> = Vec::new();
                items.push(v);
                proof {
                    lemma_jvals_of(items@);
                    assert(jvals_of(items@) =~= seq![jval_at(vg)]);
                }
                Some((items, q2 + 1))
            } else {
                None
            }
        },
    }
}

/// Parse the fields of a non-empty object, standing after `{` or `,`.
#[verifier::rlimit(60)]
fn parse_members_at(cs: &Vec<char>, p: usize) -> (r: Option<(Vec<(String, JsonValue)>, usize)>)
    requires
        p <= cs@.len(),
    ensures
        match sp_members(cs@, p as int) {
            Some(fq) => match r {
                Some(x) => jfields_of(x.0@) == fq.0 && x.1 as int == fq.1 && x.1 <= cs@.len(),
                None => false,
            },
            None => r is None,
        },
    decreases cs@.len() - p, 3int,
{
    let qk = ws_end(cs, p);
    if qk >= cs.len() {
        return None;
    }
    if cs[qk] != '"' {
        return None;
    }
    match parse_string_at(cs, qk + 1) {
        None => None,
        Some(kx) => {
            let (kbody, pk) = kx;
            let key = string_from_chars(&kbody);
            let ghost keyg = key;
            let pc = ws_end(cs, pk);
            if pc >= cs.len() {
                return None;
            }
            if cs[pc] != ':' {
                return None;
            }
            if pc + 1 <= p {
                return None;
            }
            match parse_value_at(cs, pc + 1) {
                None => None,
                Some(x) => {
                    let (v, p2) = x;
                    if p2 <= p {
                        return None;
                    }
                    let q2 = ws_end(cs, p2);
                    if q2 >= cs.len() {
                        return None;
                    }
                    let ghost vg = v;
                    if cs[q2] == ',' {
                        match parse_members_at(cs, q2 + 1) {
                            Some(y) => {
                                let (mut fields, p3) = y;
                                let ghost fieldsv = fields@;
                                fields.insert(0, (key, v));
                                proof {
                                    assert(fields@ =~= seq![(keyg, vg)] + fieldsv);
                                    lemma_jfields_of(fields@);
                                    lemma_jfields_of(fieldsv);
                                    assert(jfields_of(fields@) =~= seq![
                                        (keyg@, jval_at(vg)),
                                    ] + jfields_of(fieldsv));
                                }
                                Some((fields, p3))
                            },
                            None => None,
                        }
                    } else if cs[q2] == '}' {
                        let mut fields: Vec<(String, JsonValue)> = Vec::new();
                        fields.push((key, v));
                        proof {
                            lemma_jfields_of(fields@);
                            assert(jfields_of(fields@) =~= seq![(keyg@, jval_at(vg))]);
                        }
                        Some((fields, q2 + 1))
                    } else {
                        None
                    }
                },
            }
        },
    }
}

/// Parse a whole JSON document: one value with nothing but whitespace
/// around it. `None` exactly where the grammar, or the signed 64-bit
/// number range, is not met.
pub fn parse_json(s: &str) -> (r: Option<JsonValue>)
    ensures
        match spec_parse(s@) {
            Some(v) => match r {
                Some(x) => x@ == v,
                None => false,
            },
            None => r is None,
        },
{
    let cs = chars_of_str(s);
    match parse_value_at(&cs, 0) {
        None => None,
        Some(x) => {
            let (v, p) = x;
            let t = ws_end(&cs, p);
            if t == cs.len() {
                Some(v)
            } else {
                None
            }
        },
    }
}


/// A document every number of which fits the store's signed 64-bit range.
/// Every document the store builds is of this shape; rendering and
/// re-parsing preserves exactly these documents.
pub open spec fn jval_wf(v: JVal) -> bool
    decreases v,
{
    match v {
        JVal::Null => true,
        JVal::Bool(_) => true,
        JVal::Int(n) => i64::MIN <= n <= i64::MAX,
        JVal::NumLit(s) => num_body_ok(s) && (forall|j: int|
            0 <= j < s.len() ==> is_num_char(#[trigger] s[j])) && !(is_plain_int(s) && i64::MIN
            <= plain_int_val(s) <= i64::MAX),
        JVal::Str(_) => true,
        JVal::Arr(items) => jvals_wf(items),
        JVal::Obj(fs) => jfields_wf(fs),
    }
}

/// Well-formedness of every array element.
pub open spec fn jvals_wf(items: Seq<JVal>) -> bool
    decreases items,
{
    if items.len() == 0 {
        true
    } else {
        jval_wf(items[0]) && jvals_wf(items.subrange(1, items.len() as int))
    }
}

/// Well-formedness of every object field value.
pub open spec fn jfields_wf(fs: Seq<(Seq<char>, JVal)>) -> bool
    decreases fs,
{
    if fs.len() == 0 {
        true
    } else {
        jval_wf(fs[0].1) && jfields_wf(fs.subrange(1, fs.len() as int))
    }
}

/// Skipping whitespace runs to the first non-whitespace position.
proof fn lemma_ws_run(cs: Seq<char>, p: int, q: int)
    requires
        0 <= p <= q <= cs.len(),
        forall|j: int| p <= j < q ==> is_ws(cs[j]),
        q == cs.len() || !is_ws(cs[q]),
    ensures
        sp_ws(cs, p) == q,
    decreases q - p,
{
    if p < q {
        lemma_ws_run(cs, p + 1, q);
    }
}

/// The decimal rendering of a number is a non-empty run of digits.
proof fn lemma_dec_chars_digits(n: nat)
    ensures
        dec_chars(n).len() > 0,
        forall|j: int| 0 <= j < dec_chars(n).len() ==> is_digit(#[trigger] dec_chars(n)[j]),
    decreases n,
{
    if n >= 10 {
        lemma_dec_chars_digits(n / 10);
        assert forall|j: int| 0 <= j < dec_chars(n).len() implies is_digit(
            #[trigger] dec_chars(n)[j],
        ) by {
            if j < dec_chars(n / 10).len() {
                assert(dec_chars(n)[j] == dec_chars(n / 10)[j]);
            } else {
                assert(dec_chars(n)[j] == dec_digit((n % 10) as int));
            }
        }
    }
}

/// The first character of a rendering: never whitespace, a digit boundary
/// marker, or a closing delimiter.
proof fn lemma_render_head(v: JVal, ind: Seq<char>)
    requires
        jval_wf(v),
    ensures
        spec_render(v, ind).len() > 0,
        !is_ws(spec_render(v, ind)[0]),
        spec_render(v, ind)[0] != ']',
        spec_render(v, ind)[0] != '}',
        spec_render(v, ind)[0] != ',',
{
    match v {
        JVal::Int(n) => {
            if n >= 0 {
                lemma_dec_chars_digits(n as nat);
            } else {
                lemma_dec_chars_digits((-n) as nat);
            }
        },
        JVal::NumLit(s) => {
            lemma_num_body_head(s);
        },
        _ => {},
    }
}

/// A well-formed number lexeme is non-empty and starts with a minus sign
/// or a digit.
proof fn lemma_num_body_head(s: Seq<char>)
    requires
        num_body_ok(s),
    ensures
        s.len() > 0,
        s[0] == '-' || is_digit(s[0]),
{
    if !(s.len() > 0 && s[0] == '-') {
        if s.len() == 0 {
            assert(sp_digits_end(s, 0) == 0);
        } else if !is_digit(s[0]) {
            assert(sp_digits_end(s, 0) == 0);
        }
    }
}


/// Scanning digits runs to the first non-digit position.
proof fn lemma_digits_run(cs: Seq<char>, p: int, q: int)
    requires
        0 <= p <= q <= cs.len(),
        forall|j: int| p <= j < q ==> is_digit(cs[j]),
        q == cs.len() || !is_digit(cs[q]),
    ensures
        sp_digits_end(cs, p) == q,
    decreases q - p,
{
    if p < q {
        lemma_digits_run(cs, p + 1, q);
    }
}

/// The value of a rendered number's digits is the number.
proof fn lemma_digits_val_of_dec(cs: Seq<char>, p: int, n: nat)
    requires
        0 <= p,
        p + dec_chars(n).len() <= cs.len(),
        forall|j: int| 0 <= j < dec_chars(n).len() ==> cs[p + j] == dec_chars(n)[j],
    ensures
        digits_val(cs, p, p + dec_chars(n).len()) == n,
    decreases n,
{
    lemma_dec_chars_digits(n);
    if n < 10 {
        assert(cs[p] == dec_chars(n)[0]);
        assert(dec_chars(n)[0] == dec_digit(n as int));
        assert(digits_val(cs, p, p) == 0);
        assert(digits_val(cs, p, p + 1) == digit_val(cs[p]));
    } else {
        let head = dec_chars(n / 10);
        lemma_dec_chars_digits(n / 10);
        assert forall|j: int| 0 <= j < head.len() implies cs[p + j] == head[j] by {
            assert(dec_chars(n)[j] == head[j]);
            assert(cs[p + j] == dec_chars(n)[j]);
        }
        lemma_digits_val_of_dec(cs, p, n / 10);
        let e = p + dec_chars(n).len();
        assert(cs[e - 1] == dec_chars(n)[dec_chars(n).len() - 1]);
        assert(dec_chars(n)[dec_chars(n).len() - 1] == dec_digit((n % 10) as int));
        assert(digits_val(cs, p, e) == digits_val(cs, p, e - 1) * 10 + digit_val(cs[e - 1]));
        assert(e - 1 == p + head.len());
    }
}

/// A rendered integer at `p`, bounded on the right by a character no
/// number lexeme can hold, parses back to exactly that integer.
#[verifier::rlimit(100)]
proof fn lemma_parse_number(cs: Seq<char>, p: int, n: int)
    requires
        0 <= p,
        i64::MIN <= n <= i64::MAX,
        p + int_chars(n).len() <= cs.len(),
        forall|j: int| 0 <= j < int_chars(n).len() ==> cs[p + j] == int_chars(n)[j],
        p + int_chars(n).len() == cs.len() || !is_num_char(cs[p + int_chars(n).len()]),
    ensures
        sp_number(cs, p) == Some((JVal::Int(n), p + int_chars(n).len())),
{
    let r = int_chars(n);
    let e = p + r.len();
    if n >= 0 {
        lemma_dec_chars_digits(n as nat);
    } else {
        lemma_dec_chars_digits((-n) as nat);
    }
    assert forall|j: int| p <= j < e implies is_num_char(cs[j]) by {
        assert(cs[j] == r[j - p]);
        if n >= 0 {
            assert(is_digit(r[j - p]));
        } else {
            if j == p {
                assert(r[0] == '-');
            } else {
                assert(r[j - p] == dec_chars((-n) as nat)[j - p - 1]);
            }
        }
    }
    lemma_num_run(cs, p, e);
    assert(sp_num_end(cs, p) == e);
    let sv = cs.subrange(p, e);
    assert(sv =~= r);
    // the lexeme is a plain integer within range, with value n
    if n >= 0 {
        assert(sv[0] == dec_chars(n as nat)[0]);
        assert(is_digit(sv[0]));
        assert(!(sv[0] == '-'));
        assert forall|j: int| 0 <= j < sv.len() implies is_digit(sv[j]) by {
            assert(sv[j] == dec_chars(n as nat)[j]);
        }
        lemma_digits_run(sv, 0, sv.len() as int);
        assert(sp_digits_end(sv, 0) == sv.len());
        assert forall|j: int| 0 <= j < dec_chars(n as nat).len() implies sv[0 + j] == (
        #[trigger] dec_chars(n as nat)[j]) by {}
        lemma_digits_val_of_dec(sv, 0, n as nat);
        assert(plain_int_val(sv) == n);
    } else {
        let m = (-n) as nat;
        assert(sv[0] == '-');
        assert forall|j: int| 1 <= j < sv.len() implies is_digit(sv[j]) by {
            assert(sv[j] == dec_chars(m)[j - 1]);
        }
        lemma_digits_run(sv, 1, sv.len() as int);
        assert(sp_digits_end(sv, 1) == sv.len());
        assert forall|j: int| 0 <= j < dec_chars(m).len() implies sv[1 + j] == (
        #[trigger] dec_chars(m)[j]) by {}
        lemma_digits_val_of_dec(sv, 1, m);
        assert(digits_val(sv, 1, sv.len() as int) == m);
        assert(plain_int_val(sv) == n);
    }
    assert(num_frac_end(sv, sv.len() as int) == sv.len());
    assert(num_exp_end(sv, sv.len() as int) == sv.len());
    assert(num_body_ok(sv));
    assert(is_plain_int(sv));
}

/// A rendered opaque number lexeme at `p`, bounded on the right by a
/// character no number lexeme can hold, parses back to exactly that
/// lexeme.
proof fn lemma_parse_numlit(cs: Seq<char>, p: int, sv: Seq<char>)
    requires
        0 <= p,
        jval_wf(JVal::NumLit(sv)),
        p + sv.len() <= cs.len(),
        forall|j: int| 0 <= j < sv.len() ==> cs[p + j] == sv[j],
        p + sv.len() == cs.len() || !is_num_char(cs[p + sv.len()]),
    ensures
        sp_number(cs, p) == Some((JVal::NumLit(sv), p + sv.len())),
{
    let e = p + sv.len();
    lemma_num_body_head(sv);
    assert forall|j: int| p <= j < e implies is_num_char(cs[j]) by {
        assert(cs[j] == sv[j - p]);
        assert(is_num_char(sv[j - p]));
    }
    lemma_num_run(cs, p, e);
    assert(sp_num_end(cs, p) == e);
    assert(cs.subrange(p, e) =~= sv);
}

/// The escape of a character followed by more escaped text and the closing
/// quote parses back to the character before the rest.
proof fn lemma_parse_esc_str(cs: Seq<char>, p: int, s: Seq<char>)
    requires
        0 <= p,
        p + esc_str(s).len() < cs.len(),
        forall|j: int| 0 <= j < esc_str(s).len() ==> cs[p + j] == esc_str(s)[j],
        cs[p + esc_str(s).len()] == '"',
    ensures
        sp_string(cs, p) == Some((s, p + esc_str(s).len() + 1)),
    decreases s,
{
    broadcast use vstd::utf8::char_u32_cast;

    if s.len() == 0 {
        assert(cs[p] == '"');
    } else {
        let c = s[0];
        let rest = s.subrange(1, s.len() as int);
        let ec = esc_char(c);
        lemma_esc_str_concat(seq![c], rest);
        assert(seq![c] + rest =~= s);
        assert(seq![c].subrange(1, 1) =~= Seq::<char>::empty());
        assert(esc_str(seq![c]) == ec + esc_str(Seq::<char>::empty()));
        assert(esc_str(seq![c]) =~= ec);
        assert(esc_str(s) =~= ec + esc_str(rest));
        let p2 = p + ec.len();
        assert forall|j: int| 0 <= j < esc_str(rest).len() implies cs[p2 + j] == esc_str(
            rest,
        )[j] by {
            assert(esc_str(s)[ec.len() + j] == esc_str(rest)[j]);
            assert(cs[p + (ec.len() + j)] == esc_str(s)[ec.len() + j]);
        }
        assert forall|j: int| 0 <= j < ec.len() implies cs[p + j] == ec[j] by {
            assert(esc_str(s)[j] == ec[j]);
        }
        lemma_parse_esc_str(cs, p2, rest);
        if c == '"' || c == '\\' || c == '\n' || c == '\r' || c == '\t' {
            assert(cs[p] == '\\');
            assert(sp_string(cs, p) == Some((seq![c] + rest, p + esc_str(s).len() + 1)));
            assert(seq![c] + rest == s);
        } else if (c as u32) < 0x20 {
            let u = c as u32;
            assert(cs[p] == '\\');
            assert(cs[p + 1] == 'u');
            assert(cs[p + 2] == '0');
            assert(cs[p + 3] == '0');
            assert(cs[p + 4] == hex_digit(u as int / 16));
            assert(cs[p + 5] == hex_digit(u as int % 16));
            assert(hex_val('0') == 0);
            assert(hex_val(hex_digit(u as int / 16)) == u as int / 16);
            assert(hex_val(hex_digit(u as int % 16)) == u as int % 16);
            let code = hex_val(cs[p + 2]) * 4096 + hex_val(cs[p + 3]) * 256 + hex_val(
                cs[p + 4],
            ) * 16 + hex_val(cs[p + 5]);
            assert(code == u);
            assert(!(0xD800 <= code < 0xE000));
            assert(code as u32 == c as u32);
            vstd::utf8::char_u32_cast(c, code as u32);
            assert(((code as u32) as char) == c);
            assert(sp_string(cs, p) == Some((seq![c] + rest, p + esc_str(s).len() + 1)));
            assert(seq![c] + rest == s);
        } else {
            assert(ec =~= seq![c]);
            assert(cs[p] == c);
            assert(cs[p] != '"' && cs[p] != '\\');
            assert(!((cs[p] as u32) < 0x20));
            assert(sp_string(cs, p) == Some((seq![cs[p]] + rest, p + esc_str(s).len() + 1)));
            assert(seq![cs[p]] + rest == s);
        }
    }
}


/// A rendered value at `p`, after `w` characters of whitespace, parses
/// back to exactly that value, ending right after the rendered text.
#[verifier::rlimit(100)]
proof fn lemma_parse_render_val(cs: Seq<char>, p: int, w: int, v: JVal, ind: Seq<char>)
    requires
        0 <= p,
        0 <= w,
        jval_wf(v),
        forall|j: int| 0 <= j < ind.len() ==> is_ws(ind[j]),
        forall|j: int| 0 <= j < w ==> is_ws(#[trigger] cs[p + j]),
        p + w + spec_render(v, ind).len() <= cs.len(),
        forall|j: int| 0 <= j < spec_render(v, ind).len() ==> cs[p + w + j] == spec_render(
            v,
            ind,
        )[j],
        p + w + spec_render(v, ind).len() == cs.len() || !is_num_char(
            cs[p + w + spec_render(v, ind).len()],
        ),
    ensures
        sp_value(cs, p) == Some((v, p + w + spec_render(v, ind).len())),
    decreases v, 0int,
{
    let r = spec_render(v, ind);
    let q = p + w;
    let e = q + r.len();
    lemma_render_head(v, ind);
    assert(cs[q] == r[0]);
    assert forall|t: int| p <= t < q implies is_ws(cs[t]) by {
        assert(is_ws(cs[p + (t - p)]));
    }
    lemma_ws_run(cs, p, q);
    assert(sp_ws(cs, p) == q);
    match v {
        JVal::Null => {
            assert(cs[q] == 'n' && cs[q + 1] == 'u' && cs[q + 2] == 'l' && cs[q + 3] == 'l');
        },
        JVal::Bool(b) => {
            if b {
                assert(cs[q] == 't' && cs[q + 1] == 'r' && cs[q + 2] == 'u' && cs[q + 3] == 'e');
            } else {
                assert(cs[q] == 'f' && cs[q + 1] == 'a' && cs[q + 2] == 'l' && cs[q + 3] == 's'
                    && cs[q + 4] == 'e');
            }
        },
        JVal::Int(n) => {
            assert(r == int_chars(n));
            lemma_parse_number(cs, q, n);
            if n >= 0 {
                lemma_dec_chars_digits(n as nat);
                assert(r[0] == dec_chars(n as nat)[0]);
                assert(is_digit(cs[q]));
            } else {
                assert(cs[q] == '-');
            }
            assert(cs[q] != 'n' && cs[q] != 't' && cs[q] != 'f' && cs[q] != '"');
        },
        JVal::NumLit(sv) => {
            assert(r == sv);
            lemma_num_body_head(sv);
            assert(cs[q] == sv[0]);
            assert(cs[q] == '-' || is_digit(cs[q]));
            assert(cs[q] != 'n' && cs[q] != 't' && cs[q] != 'f' && cs[q] != '"');
            assert forall|j: int| 0 <= j < sv.len() implies cs[q + j] == sv[j] by {
                assert(cs[p + w + j] == r[j]);
            }
            lemma_parse_numlit(cs, q, sv);
        },
        JVal::Str(sv) => {
            assert(cs[q] == '"');
            assert forall|j: int| 0 <= j < esc_str(sv).len() implies cs[q + 1 + j] == esc_str(
                sv,
            )[j] by {
                assert(r[1 + j] == esc_str(sv)[j]);
                assert(cs[q + (1 + j)] == r[1 + j]);
            }
            assert(cs[q + 1 + esc_str(sv).len()] == r[r.len() - 1]);
            assert(r[r.len() - 1] == '"');
            lemma_parse_esc_str(cs, q + 1, sv);
        },
        JVal::Arr(items) => {
            assert(cs[q] == '[');
            if items.len() == 0 {
                assert(cs[q + 1] == ']');
                lemma_ws_run(cs, q + 1, q + 1);
                assert(items =~= Seq::<JVal>::empty());
            } else {
                let ind2 = ind + seq![' ', ' '];
                let body = spec_render_items(items, ind2);
                assert(r == seq!['['] + body + nl_ind(ind) + seq![']']);
                assert forall|j: int| 0 <= j < body.len() + nl_ind(ind).len() + 1 implies cs[q + 1
                    + j] == (body + nl_ind(ind) + seq![']'])[j] by {
                    assert(r[1 + j] == (body + nl_ind(ind) + seq![']'])[j]);
                    assert(cs[q + (1 + j)] == r[1 + j]);
                }
                assert forall|j: int| 0 <= j < ind2.len() implies is_ws(ind2[j]) by {
                    if j < ind.len() {
                        assert(ind2[j] == ind[j]);
                    } else {
                        assert(ind2[j] == ' ');
                    }
                }
                assert(decreases_to!(v => items));
                lemma_parse_render_items(cs, q + 1, items, ind2, ind);
                assert(sp_elems(cs, q + 1) == Some(
                    (items, q + 1 + body.len() + nl_ind(ind).len() + 1),
                ));
                // the whitespace after `[` ends at the first element, which
                // does not start with `]`
                assert(body == nl_ind(ind2) + spec_render(items[0], ind2) + (if items.len() == 1 {
                    Seq::<char>::empty()
                } else {
                    seq![','] + spec_render_items(
                        items.subrange(1, items.len() as int),
                        ind2,
                    )
                }));
                assert(jval_wf(items[0]));
                lemma_render_head(items[0], ind2);
                let w2: int = 1 + ind2.len() as int;
                assert(body.len() >= w2 + spec_render(items[0], ind2).len());
                assert forall|j: int| 0 <= j < w2 implies is_ws(#[trigger] cs[q + 1 + j]) by {
                    assert(cs[q + 1 + j] == (body + nl_ind(ind) + seq![']'])[j]);
                    assert((body + nl_ind(ind) + seq![']'])[j] == body[j]);
                    assert(body[j] == nl_ind(ind2)[j]);
                    if j == 0 {
                        assert(nl_ind(ind2)[0] == '\n');
                    } else {
                        assert(nl_ind(ind2)[j] == ind2[j - 1]);
                    }
                }
                assert(cs[q + 1 + w2] == (body + nl_ind(ind) + seq![']'])[w2]);
                assert((body + nl_ind(ind) + seq![']'])[w2] == body[w2]);
                assert(body[w2] == spec_render(items[0], ind2)[0]);
                assert forall|t: int| q + 1 <= t < q + 1 + w2 implies is_ws(cs[t]) by {
                    assert(is_ws(cs[q + 1 + (t - (q + 1))]));
                }
                lemma_ws_run(cs, q + 1, q + 1 + w2);
                assert(sp_ws(cs, q + 1) == q + 1 + w2);
                assert(cs[q + 1 + w2] != ']');
                assert(sp_value(cs, p) == Some((JVal::Arr(items), e)));
            }
        },
        JVal::Obj(fs) => {
            assert(cs[q] == '{');
            if fs.len() == 0 {
                assert(cs[q + 1] == '}');
                lemma_ws_run(cs, q + 1, q + 1);
                assert(fs =~= Seq::<(Seq<char>, JVal)>::empty());
            } else {
                let ind2 = ind + seq![' ', ' '];
                let body = spec_render_fields(fs, ind2);
                assert(r == seq!['{'] + body + nl_ind(ind) + seq!['}']);
                assert forall|j: int| 0 <= j < body.len() + nl_ind(ind).len() + 1 implies cs[q + 1
                    + j] == (body + nl_ind(ind) + seq!['}'])[j] by {
                    assert(r[1 + j] == (body + nl_ind(ind) + seq!['}'])[j]);
                    assert(cs[q + (1 + j)] == r[1 + j]);
                }
                assert forall|j: int| 0 <= j < ind2.len() implies is_ws(ind2[j]) by {
                    if j < ind.len() {
                        assert(ind2[j] == ind[j]);
                    } else {
                        assert(ind2[j] == ' ');
                    }
                }
                assert(decreases_to!(v => fs));
                lemma_parse_render_fields(cs, q + 1, fs, ind2, ind);
                assert(sp_members(cs, q + 1) == Some(
                    (fs, q + 1 + body.len() + nl_ind(ind).len() + 1),
                ));
                let head = nl_ind(ind2) + seq!['"'] + esc_str(fs[0].0) + seq!['"', ':', ' ']
                    + spec_render(fs[0].1, ind2);
                assert(body == head + (if fs.len() == 1 {
                    Seq::<char>::empty()
                } else {
                    seq![','] + spec_render_fields(fs.subrange(1, fs.len() as int), ind2)
                }));
                let w2: int = 1 + ind2.len() as int;
                assert(body.len() >= head.len());
                assert(head.len() >= w2 + 1);
                assert forall|j: int| 0 <= j < w2 implies is_ws(#[trigger] cs[q + 1 + j]) by {
                    assert(cs[q + 1 + j] == (body + nl_ind(ind) + seq!['}'])[j]);
                    assert((body + nl_ind(ind) + seq!['}'])[j] == body[j]);
                    assert(body[j] == head[j]);
                    if j == 0 {
                        assert(head[0] == '\n');
                    } else {
                        assert(head[j] == ind2[j - 1]);
                    }
                }
                assert(cs[q + 1 + w2] == (body + nl_ind(ind) + seq!['}'])[w2]);
                assert((body + nl_ind(ind) + seq!['}'])[w2] == body[w2]);
                assert(body[w2] == head[w2]);
                assert(head[w2] == '"');
                assert forall|t: int| q + 1 <= t < q + 1 + w2 implies is_ws(cs[t]) by {
                    assert(is_ws(cs[q + 1 + (t - (q + 1))]));
                }
                lemma_ws_run(cs, q + 1, q + 1 + w2);
                assert(sp_ws(cs, q + 1) == q + 1 + w2);
                assert(cs[q + 1 + w2] != '}');
                assert(sp_value(cs, p) == Some((JVal::Obj(fs), e)));
            }
        },
    }
}

/// The rendered elements of a non-empty array, followed by the closing
/// line and bracket, parse back to exactly those elements.
#[verifier::rlimit(100)]
proof fn lemma_parse_render_items(
    cs: Seq<char>,
    p: int,
    items: Seq<JVal>,
    ind2: Seq<char>,
    tail_ind: Seq<char>,
)
    requires
        0 <= p,
        items.len() > 0,
        jvals_wf(items),
        forall|j: int| 0 <= j < ind2.len() ==> is_ws(ind2[j]),
        forall|j: int| 0 <= j < tail_ind.len() ==> is_ws(tail_ind[j]),
        p + spec_render_items(items, ind2).len() + nl_ind(tail_ind).len() + 1 <= cs.len(),
        forall|j: int|
            0 <= j < spec_render_items(items, ind2).len() + nl_ind(tail_ind).len() + 1 ==> cs[p
                + j] == (spec_render_items(items, ind2) + nl_ind(tail_ind) + seq![']'])[j],
    ensures
        sp_elems(cs, p) == Some(
            (items, p + spec_render_items(items, ind2).len() + nl_ind(tail_ind).len() + 1),
        ),
    decreases items, 0int,
{
    let body = spec_render_items(items, ind2);
    let whole = body + nl_ind(tail_ind) + seq![']'];
    let head = nl_ind(ind2) + spec_render(items[0], ind2);
    let r0 = spec_render(items[0], ind2);
    let w: int = 1 + ind2.len() as int;
    assert(jval_wf(items[0]));
    // the element, preceded by its line break and indentation
    assert forall|j: int| 0 <= j < w implies is_ws(#[trigger] cs[p + j]) by {
        assert(whole[j] == body[j]);
        assert(body[j] == head[j]);
        if j == 0 {
            assert(head[0] == '\n');
        } else {
            assert(head[j] == ind2[j - 1]);
        }
        assert(cs[p + j] == whole[j]);
    }
    assert forall|j: int| 0 <= j < r0.len() implies cs[p + w + j] == r0[j] by {
        assert(whole[w + j] == body[w + j]);
        assert(body[w + j] == head[w + j]);
        assert(head[w + j] == r0[j]);
        assert(cs[p + (w + j)] == whole[w + j]);
    }
    let p2 = p + w + r0.len();
    // the character after the element is a comma or the closing line break
    if items.len() == 1 {
        assert(cs[p2] == whole[w + r0.len()]);
        assert(whole[body.len() as int] == nl_ind(tail_ind)[0]);
        assert(body.len() == w + r0.len());
        assert(cs[p2] == '\n');
    } else {
        assert(cs[p2] == whole[w + r0.len()]);
        assert(whole[w + r0.len()] == body[w + r0.len()]);
        assert(body[w + r0.len()] == ',');
    }
    assert(decreases_to!(items => items[0]));
    lemma_parse_render_val(cs, p, w, items[0], ind2);
    assert(sp_value(cs, p) == Some((items[0], p2)));
    assert(head.len() == w + r0.len());
    let q2 = sp_ws(cs, p2);
    if items.len() == 1 {
        assert(body == head);
        // line break, indentation, then the closing bracket
        assert forall|j: int| 0 <= j < nl_ind(tail_ind).len() implies is_ws(
            #[trigger] cs[p2 + j],
        ) by {
            assert(whole[body.len() + j] == nl_ind(tail_ind)[j]);
            if j == 0 {
                assert(nl_ind(tail_ind)[0] == '\n');
            } else {
                assert(nl_ind(tail_ind)[j] == tail_ind[j - 1]);
            }
            assert(cs[p + (body.len() + j)] == whole[body.len() + j]);
        }
        let close = p2 + nl_ind(tail_ind).len();
        assert(cs[close] == whole[body.len() + nl_ind(tail_ind).len() as int]);
        assert(whole[body.len() + nl_ind(tail_ind).len() as int] == ']');
        assert forall|t: int| p2 <= t < close implies is_ws(cs[t]) by {
            assert(is_ws(cs[p2 + (t - p2)]));
        }
        lemma_ws_run(cs, p2, close);
        assert(q2 == close);
        assert(cs[q2] == ']');
        assert(seq![items[0]] =~= items);
        assert(sp_elems(cs, p) == Some((items, close + 1)));
    } else {
        let rest = items.subrange(1, items.len() as int);
        let rbody = spec_render_items(rest, ind2);
        assert(body == head + seq![','] + rbody);
        assert(body.len() == head.len() + 1 + rbody.len());
        assert(cs[p2] == ',');
        lemma_ws_run(cs, p2, p2);
        assert(q2 == p2);
        let p3 = p2 + 1;
        assert forall|j: int| 0 <= j < rbody.len() + nl_ind(tail_ind).len() + 1 implies cs[p3 + j]
            == (rbody + nl_ind(tail_ind) + seq![']'])[j] by {
            if j < rbody.len() {
                assert((rbody + nl_ind(tail_ind) + seq![']'])[j] == rbody[j]);
                assert(body[head.len() + 1 + j] == rbody[j]);
                assert(whole[head.len() + 1 + j] == body[head.len() + 1 + j]);
                assert(cs[p + (head.len() + 1 + j)] == whole[head.len() + 1 + j]);
            } else {
                assert((rbody + nl_ind(tail_ind) + seq![']'])[j] == (nl_ind(tail_ind) + seq![
                    ']',
                ])[j - rbody.len()]);
                assert(whole[body.len() + (j - rbody.len())] == (nl_ind(tail_ind) + seq![']'])[j
                    - rbody.len()]);
                assert(cs[p + (body.len() + (j - rbody.len()))] == whole[body.len() + (j
                    - rbody.len())]);
                assert(p3 + j == p + body.len() + (j - rbody.len()));
            }
        }
        assert forall|j: int| 0 <= j < rest.len() implies jval_wf(#[trigger] rest[j]) by {
            lemma_jvals_wf_index(items);
            assert(rest[j] == items[j + 1]);
        }
        lemma_jvals_wf_tail(items);
        lemma_parse_render_items(cs, p3, rest, ind2, tail_ind);
        assert(sp_elems(cs, p3) == Some(
            (rest, p3 + rbody.len() + nl_ind(tail_ind).len() + 1),
        ));
        assert(seq![items[0]] + rest =~= items);
        assert(p3 + rbody.len() == p + body.len());
        assert(sp_elems(cs, p) == Some(
            (items, p + body.len() + nl_ind(tail_ind).len() + 1),
        ));
    }
}

/// Well-formedness of the elements after the first.
proof fn lemma_jvals_wf_tail(items: Seq<JVal>)
    requires
        items.len() > 0,
        jvals_wf(items),
    ensures
        jvals_wf(items.subrange(1, items.len() as int)),
{
}

/// Each element of a well-formed sequence is well-formed.
proof fn lemma_jvals_wf_index(items: Seq<JVal>)
    requires
        jvals_wf(items),
    ensures
        forall|j: int| 0 <= j < items.len() ==> jval_wf(#[trigger] items[j]),
    decreases items,
{
    if items.len() > 0 {
        let tail = items.subrange(1, items.len() as int);
        lemma_jvals_wf_index(tail);
        assert forall|j: int| 0 <= j < items.len() implies jval_wf(#[trigger] items[j]) by {
            if j > 0 {
                assert(tail[j - 1] == items[j]);
            }
        }
    }
}

/// The rendered fields of a non-empty object, followed by the closing
/// line and brace, parse back to exactly those fields.
#[verifier::rlimit(100)]
proof fn lemma_parse_render_fields(
    cs: Seq<char>,
    p: int,
    fs: Seq<(Seq<char>, JVal)>,
    ind2: Seq<char>,
    tail_ind: Seq<char>,
)
    requires
        0 <= p,
        fs.len() > 0,
        jfields_wf(fs),
        forall|j: int| 0 <= j < ind2.len() ==> is_ws(ind2[j]),
        forall|j: int| 0 <= j < tail_ind.len() ==> is_ws(tail_ind[j]),
        p + spec_render_fields(fs, ind2).len() + nl_ind(tail_ind).len() + 1 <= cs.len(),
        forall|j: int|
            0 <= j < spec_render_fields(fs, ind2).len() + nl_ind(tail_ind).len() + 1 ==> cs[p
                + j] == (spec_render_fields(fs, ind2) + nl_ind(tail_ind) + seq!['}'])[j],
    ensures
        sp_members(cs, p) == Some(
            (fs, p + spec_render_fields(fs, ind2).len() + nl_ind(tail_ind).len() + 1),
        ),
    decreases fs, 0int,
{
    let body = spec_render_fields(fs, ind2);
    let whole = body + nl_ind(tail_ind) + seq!['}'];
    let k = fs[0].0;
    let rv = spec_render(fs[0].1, ind2);
    let head = nl_ind(ind2) + seq!['"'] + esc_str(k) + seq!['"', ':', ' '] + rv;
    let w: int = 1 + ind2.len() as int;
    assert(jval_wf(fs[0].1));
    // line break and indentation, then the quoted key
    assert forall|j: int| 0 <= j < w implies is_ws(#[trigger] cs[p + j]) by {
        assert(whole[j] == body[j]);
        assert(body[j] == head[j]);
        if j == 0 {
            assert(head[0] == '\n');
        } else {
            assert(head[j] == ind2[j - 1]);
        }
        assert(cs[p + j] == whole[j]);
    }
    let qk = p + w;
    assert(cs[qk] == whole[w]);
    assert(whole[w] == body[w]);
    assert(body[w] == head[w]);
    assert(head[w] == '"');
    assert forall|t: int| p <= t < qk implies is_ws(cs[t]) by {
        assert(is_ws(cs[p + (t - p)]));
    }
    lemma_ws_run(cs, p, qk);
    assert(sp_ws(cs, p) == qk);
    // the escaped key, closed by its quote
    assert forall|j: int| 0 <= j < esc_str(k).len() implies cs[qk + 1 + j] == esc_str(k)[j] by {
        assert(head[w + 1 + j] == esc_str(k)[j]);
        assert(body[w + 1 + j] == head[w + 1 + j]);
        assert(whole[w + 1 + j] == body[w + 1 + j]);
        assert(cs[p + (w + 1 + j)] == whole[w + 1 + j]);
    }
    let kend = qk + 1 + esc_str(k).len();
    assert(cs[kend] == whole[w + 1 + esc_str(k).len()]);
    assert(head[w + 1 + esc_str(k).len()] == '"');
    assert(cs[kend] == '"');
    lemma_parse_esc_str(cs, qk + 1, k);
    assert(sp_string(cs, qk + 1) == Some((k, kend + 1)));
    // the colon stands right after the key, then one space and the value
    let pc = kend + 1;
    assert(cs[pc] == whole[w + 2 + esc_str(k).len()]);
    assert(head[w + 2 + esc_str(k).len()] == ':');
    assert(cs[pc] == ':');
    lemma_ws_run(cs, pc, pc);
    assert(sp_ws(cs, kend + 1) == pc);
    let vstart = pc + 1;
    assert(cs[vstart] == whole[w + 3 + esc_str(k).len()]);
    assert(head[w + 3 + esc_str(k).len()] == ' ');
    assert forall|j: int| 0 <= j < rv.len() implies cs[vstart + 1 + j] == rv[j] by {
        assert(head[w + 4 + esc_str(k).len() + j] == rv[j]);
        assert(body[w + 4 + esc_str(k).len() + j] == head[w + 4 + esc_str(k).len() + j]);
        assert(whole[w + 4 + esc_str(k).len() + j] == body[w + 4 + esc_str(k).len() + j]);
        assert(cs[p + (w + 4 + esc_str(k).len() + j)] == whole[w + 4 + esc_str(k).len() + j]);
        assert(vstart + 1 + j == p + (w + 4 + esc_str(k).len() + j));
    }
    let p2 = vstart + 1 + rv.len();
    assert(head.len() == w + 4 + esc_str(k).len() + rv.len());
    assert(p2 == p + head.len());
    if fs.len() == 1 {
        assert(cs[p2] == whole[body.len() as int]);
        assert(whole[body.len() as int] == nl_ind(tail_ind)[0]);
        assert(cs[p2] == '\n');
    } else {
        assert(cs[p2] == whole[head.len() as int]);
        assert(body[head.len() as int] == ',');
        assert(cs[p2] == ',');
    }
    assert(decreases_to!(fs => fs[0]));
    assert(decreases_to!(fs[0] => fs[0].1));
    lemma_parse_render_val(cs, vstart, 1, fs[0].1, ind2);
    assert(sp_value(cs, vstart) == Some((fs[0].1, p2)));
    let q2 = sp_ws(cs, p2);
    if fs.len() == 1 {
        assert forall|j: int| 0 <= j < nl_ind(tail_ind).len() implies is_ws(#[trigger] cs[p2 + j]) by {
            assert(whole[body.len() + j] == nl_ind(tail_ind)[j]);
            if j == 0 {
                assert(nl_ind(tail_ind)[0] == '\n');
            } else {
                assert(nl_ind(tail_ind)[j] == tail_ind[j - 1]);
            }
            assert(cs[p + (body.len() + j)] == whole[body.len() + j]);
        }
        let close = p2 + nl_ind(tail_ind).len();
        assert(cs[close] == whole[body.len() + nl_ind(tail_ind).len() as int]);
        assert(whole[body.len() + nl_ind(tail_ind).len() as int] == '}');
        assert forall|t: int| p2 <= t < close implies is_ws(cs[t]) by {
            assert(is_ws(cs[p2 + (t - p2)]));
        }
        lemma_ws_run(cs, p2, close);
        assert(q2 == close);
        assert(cs[q2] == '}');
        assert(seq![(k, fs[0].1)] =~= fs);
        assert(sp_members(cs, p) == Some((fs, close + 1)));
    } else {
        let rest = fs.subrange(1, fs.len() as int);
        let rbody = spec_render_fields(rest, ind2);
        assert(body == head + seq![','] + rbody);
        assert(body.len() == head.len() + 1 + rbody.len());
        lemma_ws_run(cs, p2, p2);
        assert(q2 == p2);
        let p3 = p2 + 1;
        assert forall|j: int| 0 <= j < rbody.len() + nl_ind(tail_ind).len() + 1 implies cs[p3 + j]
            == (rbody + nl_ind(tail_ind) + seq!['}'])[j] by {
            if j < rbody.len() {
                assert((rbody + nl_ind(tail_ind) + seq!['}'])[j] == rbody[j]);
                assert(body[head.len() + 1 + j] == rbody[j]);
                assert(whole[head.len() + 1 + j] == body[head.len() + 1 + j]);
                assert(cs[p + (head.len() + 1 + j)] == whole[head.len() + 1 + j]);
            } else {
                assert((rbody + nl_ind(tail_ind) + seq!['}'])[j] == (nl_ind(tail_ind) + seq![
                    '}',
                ])[j - rbody.len()]);
                assert(whole[body.len() + (j - rbody.len())] == (nl_ind(tail_ind) + seq!['}'])[j
                    - rbody.len()]);
                assert(cs[p + (body.len() + (j - rbody.len()))] == whole[body.len() + (j
                    - rbody.len())]);
                assert(p3 + j == p + body.len() + (j - rbody.len()));
            }
        }
        lemma_parse_render_fields(cs, p3, rest, ind2, tail_ind);
        assert(sp_members(cs, p3) == Some(
            (rest, p3 + rbody.len() + nl_ind(tail_ind).len() + 1),
        ));
        assert(seq![(k, fs[0].1)] + rest =~= fs);
        assert(p3 + rbody.len() == p + body.len());
        assert(sp_members(cs, p) == Some(
            (fs, p + body.len() + nl_ind(tail_ind).len() + 1),
        ));
    }
}

/// Round trip of the codec: parsing the pretty rendering of any document
/// whose numbers fit the signed 64-bit range yields that document back,
/// every field, element and unrelated key preserved exactly.
pub proof fn lemma_parse_of_render(v: JVal)
    requires
        jval_wf(v),
    ensures
        spec_parse(spec_render(v, Seq::<char>::empty())) == Some(v),
{
    let cs = spec_render(v, Seq::<char>::empty());
    lemma_parse_render_val(cs, 0, 0, v, Seq::<char>::empty());
    assert(sp_value(cs, 0) == Some((v, cs.len() as int)));
    lemma_ws_run(cs, cs.len() as int, cs.len() as int);
    assert(sp_ws(cs, cs.len() as int) == cs.len());
}


/// Every character of a number lexeme run is a number character.
proof fn lemma_sp_num_all(cs: Seq<char>, p: int)
    requires
        0 <= p <= cs.len(),
    ensures
        forall|j: int| p <= j < sp_num_end(cs, p) ==> is_num_char(cs[j]),
    decreases cs.len() - p,
{
    if p < cs.len() && is_num_char(cs[p]) {
        lemma_sp_num_all(cs, p + 1);
    }
}

/// A parsed number is a well-formed value: an in-range integer, or an
/// opaque lexeme that is a complete number and not an in-range integer.
proof fn lemma_sp_number_wf(cs: Seq<char>, p: int)
    requires
        0 <= p <= cs.len(),
    ensures
        match sp_number(cs, p) {
            Some(vq) => jval_wf(vq.0),
            None => true,
        },
{
    lemma_sp_num_end(cs, p);
    lemma_sp_num_all(cs, p);
    let q = sp_num_end(cs, p);
    if q > p {
        let s = cs.subrange(p, q);
        assert forall|j: int| 0 <= j < s.len() implies is_num_char(#[trigger] s[j]) by {
            assert(s[j] == cs[p + j]);
        }
    }
}

/// Every value the parser yields is well-formed, so the render round trip
/// applies to every document read from disk.
pub proof fn lemma_sp_value_wf(cs: Seq<char>, p: int)
    requires
        0 <= p,
    ensures
        match sp_value(cs, p) {
            Some(vq) => jval_wf(vq.0),
            None => true,
        },
    decreases cs.len() - p, 2int,
{
    let q = sp_ws(cs, p);
    if !(q < p || q >= cs.len()) {
        if cs[q] == '-' || is_digit(cs[q]) {
            lemma_sp_number_wf(cs, q);
        } else if cs[q] == '[' {
            let q1 = sp_ws(cs, q + 1);
            if q + 1 <= q1 < cs.len() && cs[q1] == ']' {
            } else {
                lemma_sp_elems_wf(cs, q + 1);
            }
        } else if cs[q] == '{' {
            let q1 = sp_ws(cs, q + 1);
            if q + 1 <= q1 < cs.len() && cs[q1] == '}' {
            } else {
                lemma_sp_members_wf(cs, q + 1);
            }
        }
    }
}

/// Every element the parser yields for an array is well-formed.
proof fn lemma_sp_elems_wf(cs: Seq<char>, p: int)
    requires
        0 <= p,
    ensures
        match sp_elems(cs, p) {
            Some(vq) => jvals_wf(vq.0),
            None => true,
        },
    decreases cs.len() - p, 3int,
{
    lemma_sp_value_wf(cs, p);
    match sp_value(cs, p) {
        None => {},
        Some(vq) => {
            let p2 = vq.1;
            if !(p2 <= p || p2 > cs.len()) {
                let q2 = sp_ws(cs, p2);
                if !(q2 < p2 || q2 >= cs.len()) {
                    if cs[q2] == ',' {
                        lemma_sp_elems_wf(cs, q2 + 1);
                        match sp_elems(cs, q2 + 1) {
                            Some(vsq) => {
                                let whole = seq![vq.0] + vsq.0;
                                assert(whole[0] == vq.0);
                                assert(whole.subrange(1, whole.len() as int) =~= vsq.0);
                                assert(jvals_wf(whole));
                                assert(sp_elems(cs, p) == Some::<(Seq<JVal>, int)>(
                                    (whole, vsq.1),
                                ));
                            },
                            None => {},
                        }
                    } else if cs[q2] == ']' {
                        let whole = seq![vq.0];
                        assert(whole[0] == vq.0);
                        assert(whole.subrange(1, 1) =~= Seq::<JVal>::empty());
                        assert(jvals_wf(Seq::<JVal>::empty()));
                        assert(jvals_wf(whole));
                        assert(sp_elems(cs, p) == Some::<(Seq<JVal>, int)>((whole, q2 + 1)));
                    }
                }
            }
        },
    }
}

/// Every field value the parser yields for an object is well-formed.
proof fn lemma_sp_members_wf(cs: Seq<char>, p: int)
    requires
        0 <= p,
    ensures
        match sp_members(cs, p) {
            Some(fq) => jfields_wf(fq.0),
            None => true,
        },
    decreases cs.len() - p, 3int,
{
    let qk = sp_ws(cs, p);
    if !(qk < p || qk >= cs.len() || cs[qk] != '"') {
        match sp_string(cs, qk + 1) {
            None => {},
            Some(kq) => {
                let pc = sp_ws(cs, kq.1);
                if !(pc < kq.1 || pc >= cs.len() || cs[pc] != ':') && !(pc + 1 <= p) {
                    lemma_sp_value_wf(cs, pc + 1);
                    match sp_value(cs, pc + 1) {
                        None => {},
                        Some(vq) => {
                            let p2 = vq.1;
                            if !(p2 <= p || p2 > cs.len()) {
                                let q2 = sp_ws(cs, p2);
                                if !(q2 < p2 || q2 >= cs.len()) {
                                    if cs[q2] == ',' {
                                        lemma_sp_members_wf(cs, q2 + 1);
                                        match sp_members(cs, q2 + 1) {
                                            Some(fsq) => {
                                                let whole = seq![(kq.0, vq.0)] + fsq.0;
                                                assert(whole[0] == (kq.0, vq.0));
                                                assert(whole.subrange(
                                                    1,
                                                    whole.len() as int,
                                                ) =~= fsq.0);
                                                assert(jfields_wf(whole));
                                                assert(sp_members(cs, p) == Some::<
                                                    (Seq<(Seq<char>, JVal)>, int),
                                                >((whole, fsq.1)));
                                            },
                                            None => {},
                                        }
                                    } else if cs[q2] == '}' {
                                        let whole = seq![(kq.0, vq.0)];
                                        assert(whole[0] == (kq.0, vq.0));
                                        assert(whole.subrange(1, 1) =~= Seq::<
                                            (Seq<char>, JVal),
                                        >::empty());
                                        assert(jfields_wf(Seq::<(Seq<char>, JVal)>::empty()));
                                        assert(jfields_wf(whole));
                                        assert(sp_members(cs, p) == Some::<
                                            (Seq<(Seq<char>, JVal)>, int),
                                        >((whole, q2 + 1)));
                                    }
                                }
                            }
                        },
                    }
                }
            },
        }
    }
}

/// A whole parsed document is well-formed.
pub proof fn lemma_parse_wf(cs: Seq<char>)
    ensures
        match spec_parse(cs) {
            Some(v) => jval_wf(v),
            None => true,
        },
{
    lemma_sp_value_wf(cs, 0);
}

} // verus!
