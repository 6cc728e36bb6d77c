//! Delta documents: operations with attributes, their JSON form and their
//! plain text.
use vstd::prelude::*;

use crate::json::{copy_fields, distinct_keys, fields_view, keys_distinct, parse_json, parsed_json, write_json, written_json};
use crate::json::{Json, JsonValue};

verus! {

broadcast use vstd::std_specs::vec::group_vec_axioms, vstd::seq::group_seq_axioms;

/// Model of what an operation carries.
pub enum Payload {
    Insert(Json),
}

/// Model of an operation.
pub struct OpModel {
    pub payload: Payload,
    pub attributes: Seq<(Seq<char>, Json)>,
}

/// What an operation carries. Only insertion exists so far; the field that
/// names the variant in JSON selects it.
#[derive(Debug, PartialEq)]
pub enum OpContent {
    Insert(JsonValue),
}

/// One operation: its content and its formatting attributes, an object's
/// fields in key order (empty when the operation has none).
#[derive(Debug, PartialEq)]
pub struct Op {
    pub content: OpContent,
    pub attributes: Vec<(String, JsonValue)>,
}

/// A document: its operations, in order.
#[derive(Debug, PartialEq)]
pub struct Delta {
    pub ops: Vec<Op>,
}

/// Why a text or a tree is not a delta document. The index is that of the
/// operation in "ops"; `None` speaks of the document itself.
#[derive(Debug, Clone, Copy, PartialEq, Eq, Structural)]
pub enum DecodeError {
    /// The text is not JSON (or is nested deeper than the JSON reader takes).
    Syntax,
    /// The document has no "ops", or an operation has no payload field.
    MissingField(Option<usize>),
    /// An operation has no payload field, but fields of unknown name.
    UnknownOperation(usize),
    /// An operation has a field besides its payload and "attributes".
    UnexpectedField(usize),
    /// The document is not an object or its "ops" is not an array, or an
    /// operation is not an object or its "attributes" is not an object.
    TypeMismatch(Option<usize>),
}

impl OpContent {
    pub open spec fn view(&self) -> Payload {
        match self {
            OpContent::Insert(v) => Payload::Insert(v@),
        }
    }
}

impl Op {
    pub open spec fn view(&self) -> OpModel {
        OpModel { payload: self.content@, attributes: fields_view(self.attributes@) }
    }
}

pub open spec fn ops_view(ops: Seq<Op>) -> Seq<OpModel> {
    Seq::new(ops.len(), |i: int| ops[i]@)
}

impl Delta {
    pub open spec fn view(&self) -> Seq<OpModel> {
        ops_view(self.ops@)
    }
}

pub open spec fn ops_key() -> Seq<char> {
    seq!['o', 'p', 's']
}

pub open spec fn insert_key() -> Seq<char> {
    seq!['i', 'n', 's', 'e', 'r', 't']
}

pub open spec fn attributes_key() -> Seq<char> {
    seq!['a', 't', 't', 'r', 'i', 'b', 'u', 't', 'e', 's']
}

/// Field `i` is the first one named `k`.
pub open spec fn is_first(f: Seq<(Seq<char>, Json)>, k: Seq<char>, i: int) -> bool {
    &&& 0 <= i < f.len()
    &&& f[i].0 == k
    &&& forall|j: int| 0 <= j < i ==> (#[trigger] f[j]).0 != k
}

pub open spec fn has_field(f: Seq<(Seq<char>, Json)>, k: Seq<char>) -> bool {
    exists|i: int| 0 <= i < f.len() && (#[trigger] f[i]).0 == k
}

/// The value of the first field named `k`.
pub open spec fn field(f: Seq<(Seq<char>, Json)>, k: Seq<char>) -> Json {
    f[choose|i: int| is_first(f, k, i)].1
}

/// A field other than the payload and "attributes".
pub open spec fn has_foreign_field(f: Seq<(Seq<char>, Json)>) -> bool {
    exists|i: int|
        0 <= i < f.len() && (#[trigger] f[i]).0 != insert_key() && f[i].0 != attributes_key()
}

/// The operation that element `idx` of "ops" stands for.
pub open spec fn decode_op(j: Json, idx: int) -> Result<OpModel, DecodeError> {
    match j {
        Json::Object(f) => {
            if !has_field(f, insert_key()) {
                if has_foreign_field(f) {
                    Err(DecodeError::UnknownOperation(idx as usize))
                } else {
                    Err(DecodeError::MissingField(Some(idx as usize)))
                }
            } else if has_foreign_field(f) {
                Err(DecodeError::UnexpectedField(idx as usize))
            } else if has_field(f, attributes_key()) {
                match field(f, attributes_key()) {
                    Json::Object(a) => Ok(
                        OpModel { payload: Payload::Insert(field(f, insert_key())), attributes: a },
                    ),
                    _ => Err(DecodeError::TypeMismatch(Some(idx as usize))),
                }
            } else {
                Ok(OpModel { payload: Payload::Insert(field(f, insert_key())), attributes: seq![] })
            }
        },
        _ => Err(DecodeError::TypeMismatch(Some(idx as usize))),
    }
}

/// The operations of the first `n` elements of "ops", or the error of the
/// first element among them that is not an operation.
pub open spec fn decode_prefix(a: Seq<Json>, n: nat) -> Result<Seq<OpModel>, DecodeError>
    decreases n,
{
    if n == 0 {
        Ok(seq![])
    } else {
        match decode_prefix(a, (n - 1) as nat) {
            Err(e) => Err(e),
            Ok(ops) => match decode_op(a[n - 1], n - 1) {
                Err(e) => Err(e),
                Ok(op) => Ok(ops.push(op)),
            },
        }
    }
}

/// The document that a JSON tree stands for. Fields of the document besides
/// "ops" are not read.
pub open spec fn decode_json(j: Json) -> Result<Seq<OpModel>, DecodeError> {
    match j {
        Json::Object(f) => {
            if !has_field(f, ops_key()) {
                Err(DecodeError::MissingField(None))
            } else {
                match field(f, ops_key()) {
                    Json::Array(a) => decode_prefix(a, a.len()),
                    _ => Err(DecodeError::TypeMismatch(None)),
                }
            }
        },
        _ => Err(DecodeError::TypeMismatch(None)),
    }
}

/// The document that a JSON text stands for.
pub open spec fn decode_text(s: Seq<char>) -> Result<Seq<OpModel>, DecodeError> {
    match parsed_json(s) {
        None => Err(DecodeError::Syntax),
        Some(j) => decode_json(j),
    }
}

/// The JSON object of an operation: "attributes" only where there are any,
/// and the fields in key order.
pub open spec fn encode_op(op: OpModel) -> Json {
    match op.payload {
        Payload::Insert(v) => if op.attributes.len() == 0 {
            Json::Object(seq![(insert_key(), v)])
        } else {
            Json::Object(seq![(attributes_key(), Json::Object(op.attributes)), (insert_key(), v)])
        },
    }
}

/// The JSON tree of a document: an object whose one field "ops" holds the
/// operations in order.
pub open spec fn encode_json(ops: Seq<OpModel>) -> Json {
    Json::Object(seq![(ops_key(), Json::Array(Seq::new(ops.len(), |i: int| encode_op(ops[i]))))])
}

/// The text that an operation adds to the plain text: its insert where that
/// is a string.
pub open spec fn op_text(op: OpModel) -> Seq<char> {
    match op.payload {
        Payload::Insert(Json::Str(s)) => s,
        _ => seq![],
    }
}

/// The strings inserted by the operations, in order.
pub open spec fn plain_text_of(ops: Seq<OpModel>) -> Seq<char>
    decreases ops.len(),
{
    if ops.len() == 0 {
        seq![]
    } else {
        plain_text_of(ops.drop_last()) + op_text(ops.last())
    }
}

pub open spec fn op_result_view(r: Result<Op, DecodeError>) -> Result<OpModel, DecodeError> {
    match r {
        Ok(op) => Ok(op@),
        Err(e) => Err(e),
    }
}

pub open spec fn delta_result_view(r: Result<Delta, DecodeError>) -> Result<
    Seq<OpModel>,
    DecodeError,
> {
    match r {
        Ok(d) => Ok(d@),
        Err(e) => Err(e),
    }
}

impl Delta {
    /// The plain text of the document: the string inserts in order, without
    /// separators. Other inserts and the attributes add nothing.
    pub fn plain_text(&self) -> (r: String)
        ensures
            r@ == plain_text_of(self@),
    {
        let mut r = String::new();
        let mut i: usize = 0;
        while i < self.ops.len()
            invariant
                i <= self.ops@.len(),
                r@ == plain_text_of(self@.subrange(0, i as int)),
            decreases self.ops@.len() - i,
        {
            let ghost before = r@;
            match &self.ops[i].content {
                OpContent::Insert(JsonValue::String(s)) => {
                    r.append(s.as_str());
                },
                _ => {},
            }
            proof {
                let done = self@.subrange(0, i + 1);
                assert(done.drop_last() =~= self@.subrange(0, i as int));
                assert(r@ =~= before + op_text(done.last()));
            }
            i += 1;
        }
        assert(self@.subrange(0, i as int) =~= self@);
        r
    }
}

/// The first field named `k` is the one `field` gives.
proof fn lemma_first_field(f: Seq<(Seq<char>, Json)>, k: Seq<char>, i: int)
    requires
        is_first(f, k, i),
    ensures
        has_field(f, k),
        field(f, k) == f[i].1,
{
    let c = choose|c: int| is_first(f, k, c);
    assert(is_first(f, k, c));
    if c < i {
        assert(f[c].0 == k);
    } else if c > i {
        assert(f[i].0 == k);
    }
}

/// Once an element fails, the decoding of every longer prefix fails with it.
proof fn lemma_prefix_err(a: Seq<Json>, i: nat, n: nat)
    requires
        i <= n,
        decode_prefix(a, i) is Err,
    ensures
        decode_prefix(a, n) == decode_prefix(a, i),
    decreases n - i,
{
    if i < n {
        lemma_prefix_err(a, i, (n - 1) as nat);
    }
}

fn key_string(k: &str) -> (r: String)
    ensures
        r@ == k@,
{
    String::from_str(k)
}

fn ops_key_string() -> (r: String)
    ensures
        r@ == ops_key(),
{
    proof {
        reveal_strlit("ops");
    }
    let r = key_string("ops");
    assert(r@ =~= ops_key());
    r
}

fn insert_key_string() -> (r: String)
    ensures
        r@ == insert_key(),
{
    proof {
        reveal_strlit("insert");
    }
    let r = key_string("insert");
    assert(r@ =~= insert_key());
    r
}

fn attributes_key_string() -> (r: String)
    ensures
        r@ == attributes_key(),
{
    proof {
        reveal_strlit("attributes");
    }
    let r = key_string("attributes");
    assert(r@ =~= attributes_key());
    r
}

/// The position of the first field named `k`.
fn find_field(f: &Vec<(String, JsonValue)>, k: &String) -> (r: Option<usize>)
    ensures
        match r {
            Some(i) => is_first(fields_view(f@), k@, i as int),
            None => !has_field(fields_view(f@), k@),
        },
{
    let mut i: usize = 0;
    while i < f.len()
        invariant
            i <= f@.len(),
            forall|j: int| 0 <= j < i ==> (#[trigger] fields_view(f@)[j]).0 != k@,
        decreases f@.len() - i,
    {
        if f[i].0.eq(k) {
            return Some(i);
        }
        i += 1;
    }
    None
}

/// Whether a field is neither the payload nor "attributes".
fn find_foreign_field(f: &Vec<(String, JsonValue)>) -> (r: bool)
    ensures
        r == has_foreign_field(fields_view(f@)),
{
    let ins = insert_key_string();
    let att = attributes_key_string();
    let mut i: usize = 0;
    while i < f.len()
        invariant
            i <= f@.len(),
            ins@ == insert_key(),
            att@ == attributes_key(),
            forall|j: int|
                0 <= j < i ==> (#[trigger] fields_view(f@)[j]).0 == insert_key()
                    || fields_view(f@)[j].0 == attributes_key(),
        decreases f@.len() - i,
    {
        if !f[i].0.eq(&ins) && !f[i].0.eq(&att) {
            assert(fields_view(f@)[i as int].0 == f@[i as int].0@);
            return true;
        }
        i += 1;
    }
    false
}

/// Decodes element `idx` of "ops".
fn decode_op_value(v: &JsonValue, idx: usize) -> (r: Result<Op, DecodeError>)
    ensures
        op_result_view(r) == decode_op(v@, idx as int),
{
    match v {
        JsonValue::Object(f) => {
            let ghost fv = fields_view(f@);
            assert(v@ == Json::Object(fv)) by {
                assert(v@->Object_0 =~= fv);
            }
            let foreign = find_foreign_field(f);
            match find_field(f, &insert_key_string()) {
                None => {
                    if foreign {
                        Err(DecodeError::UnknownOperation(idx))
                    } else {
                        Err(DecodeError::MissingField(Some(idx)))
                    }
                },
                Some(i) => {
                    proof {
                        lemma_first_field(fv, insert_key(), i as int);
                    }
                    if foreign {
                        return Err(DecodeError::UnexpectedField(idx));
                    }
                    let content = OpContent::Insert(f[i].1.copy());
                    match find_field(f, &attributes_key_string()) {
                        None => {
                            let r = Op { content, attributes: Vec::new() };
                            assert(r@.attributes =~= seq![]);
                            Ok(r)
                        },
                        Some(k) => {
                            proof {
                                lemma_first_field(fv, attributes_key(), k as int);
                            }
                            match &f[k].1 {
                                JsonValue::Object(a) => {
                                    assert(f@[k as int].1@->Object_0 =~= fields_view(a@));
                                    Ok(Op { content, attributes: copy_fields(a) })
                                },
                                _ => Err(DecodeError::TypeMismatch(Some(idx))),
                            }
                        },
                    }
                },
            }
        },
        _ => Err(DecodeError::TypeMismatch(Some(idx))),
    }
}

/// Decodes the elements of "ops" in order, stopping at the first failure.
fn decode_ops(a: &Vec<JsonValue>) -> (r: Result<Delta, DecodeError>)
    ensures
        delta_result_view(r) == decode_prefix(
            Seq::new(a@.len(), |i: int| a@[i]@),
            a@.len(),
        ),
{
    let ghost s = Seq::new(a@.len(), |i: int| a@[i]@);
    let mut ops: Vec<Op> = Vec::new();
    assert(ops_view(ops@) =~= seq![]);
    let mut i: usize = 0;
    while i < a.len()
        invariant
            i <= a@.len(),
            s == Seq::new(a@.len(), |i: int| a@[i]@),
            decode_prefix(s, i as nat) == Ok::<Seq<OpModel>, DecodeError>(ops_view(ops@)),
        decreases a@.len() - i,
    {
        match decode_op_value(&a[i], i) {
            Err(e) => {
                proof {
                    lemma_prefix_err(s, (i + 1) as nat, a@.len());
                }
                return Err(e);
            },
            Ok(op) => {
                let ghost before = ops@;
                ops.push(op);
                assert(ops_view(ops@) =~= ops_view(before).push(op@));
            },
        }
        i += 1;
    }
    Ok(Delta { ops })
}

impl Delta {
    /// The document that a JSON tree stands for: the operations of the
    /// elements of its "ops", in order, or the first reason it is none.
    pub fn from_value(v: &JsonValue) -> (r: Result<Delta, DecodeError>)
        ensures
            delta_result_view(r) == decode_json(v@),
    {
        match v {
            JsonValue::Object(f) => {
                let ghost fv = fields_view(f@);
                assert(v@ == Json::Object(fv)) by {
                    assert(v@->Object_0 =~= fv);
                }
                match find_field(f, &ops_key_string()) {
                    None => Err(DecodeError::MissingField(None)),
                    Some(i) => {
                        proof {
                            lemma_first_field(fv, ops_key(), i as int);
                        }
                        match &f[i].1 {
                            JsonValue::Array(a) => {
                                assert(f@[i as int].1@->Array_0 =~= Seq::new(
                                    a@.len(),
                                    |j: int| a@[j]@,
                                ));
                                decode_ops(a)
                            },
                            _ => Err(DecodeError::TypeMismatch(None)),
                        }
                    },
                }
            },
            _ => Err(DecodeError::TypeMismatch(None)),
        }
    }

    /// The document that a JSON text stands for; `Syntax` where the JSON
    /// reader refuses the text. No operation repeats an attribute key.
    pub fn decode(s: &str) -> (r: Result<Delta, DecodeError>)
        ensures
            delta_result_view(r) == decode_text(s@),
            r matches Ok(d) ==> forall|i: int|
                0 <= i < d@.len() ==> distinct_keys(#[trigger] d@[i].attributes),
    {
        match parse_json(s) {
            None => Err(DecodeError::Syntax),
            Some(v) => {
                let r = Delta::from_value(&v);
                proof {
                    if r is Ok {
                        lemma_decoded_keys_distinct(v@, r->Ok_0@);
                    }
                }
                r
            },
        }
    }
}

/// The JSON object of an operation.
fn encode_op_value(op: &Op) -> (r: JsonValue)
    ensures
        r@ == encode_op(op@),
{
    match &op.content {
        OpContent::Insert(v) => {
            let mut f: Vec<(String, JsonValue)> = Vec::new();
            if op.attributes.len() > 0 {
                let a = copy_fields(&op.attributes);
                let attrs = JsonValue::Object(a);
                assert(attrs@->Object_0 =~= fields_view(a@));
                f.push((attributes_key_string(), attrs));
            }
            f.push((insert_key_string(), v.copy()));
            let r = JsonValue::Object(f);
            assert(r@->Object_0 =~= encode_op(op@)->Object_0);
            r
        },
    }
}

impl Delta {
    /// The JSON tree of the document: `{"ops": [...]}` with one object per
    /// operation, in order, and "attributes" only where there are any.
    pub fn to_value(&self) -> (r: JsonValue)
        ensures
            r@ == encode_json(self@),
    {
        let mut items: Vec<JsonValue> = Vec::new();
        let mut i: usize = 0;
        while i < self.ops.len()
            invariant
                i <= self.ops@.len(),
                items@.len() == i,
                forall|j: int| 0 <= j < i ==> (#[trigger] items@[j])@ == encode_op(self@[j]),
            decreases self.ops@.len() - i,
        {
            items.push(encode_op_value(&self.ops[i]));
            i += 1;
        }
        let arr = JsonValue::Array(items);
        assert(arr@->Array_0 =~= Seq::new(self@.len(), |j: int| encode_op(self@[j])));
        let mut top: Vec<(String, JsonValue)> = Vec::new();
        top.push((ops_key_string(), arr));
        let r = JsonValue::Object(top);
        assert(r@->Object_0 =~= encode_json(self@)->Object_0);
        r
    }

    /// The JSON text of the document, as serde_json writes the tree of
    /// `to_value`.
    pub fn encode(&self) -> (r: String)
        ensures
            r@ == written_json(encode_json(self@)),
    {
        write_json(&self.to_value())
    }
}

proof fn lemma_keys_differ()
    ensures
        insert_key() != attributes_key(),
        insert_key() != ops_key(),
        attributes_key() != ops_key(),
{
    assert(insert_key()[0] != attributes_key()[0]);
    assert(insert_key()[0] != ops_key()[0]);
    assert(attributes_key()[0] != ops_key()[0]);
}

/// An operation's JSON object decodes, at any index, to that operation.
pub proof fn lemma_op_round_trip(op: OpModel, idx: int)
    ensures
        decode_op(encode_op(op), idx) == Ok::<OpModel, DecodeError>(op),
{
    lemma_keys_differ();
    let Payload::Insert(v) = op.payload;
    let f = encode_op(op)->Object_0;
    if op.attributes.len() == 0 {
        assert(is_first(f, insert_key(), 0));
        lemma_first_field(f, insert_key(), 0);
        assert(!has_foreign_field(f));
        assert(!has_field(f, attributes_key()));
        assert(op.attributes =~= seq![]);
    } else {
        assert(is_first(f, attributes_key(), 0));
        lemma_first_field(f, attributes_key(), 0);
        assert(is_first(f, insert_key(), 1));
        lemma_first_field(f, insert_key(), 1);
        assert(!has_foreign_field(f));
    }
}

/// Decoding the JSON tree of any document gives that document back: the
/// operations, their order, their inserts and their attributes, with
/// "attributes" absent exactly where an operation has none.
pub proof fn lemma_round_trip(ops: Seq<OpModel>)
    ensures
        decode_json(encode_json(ops)) == Ok::<Seq<OpModel>, DecodeError>(ops),
{
    let f = encode_json(ops)->Object_0;
    assert(is_first(f, ops_key(), 0));
    lemma_first_field(f, ops_key(), 0);
    lemma_round_trip_prefix(ops, ops.len());
    assert(ops.subrange(0, ops.len() as int) =~= ops);
}

proof fn lemma_round_trip_prefix(ops: Seq<OpModel>, n: nat)
    requires
        n <= ops.len(),
    ensures
        decode_prefix(Seq::new(ops.len(), |i: int| encode_op(ops[i])), n) == Ok::<
            Seq<OpModel>,
            DecodeError,
        >(ops.subrange(0, n as int)),
    decreases n,
{
    let a = Seq::new(ops.len(), |i: int| encode_op(ops[i]));
    if n == 0 {
        assert(ops.subrange(0, 0) =~= seq![]);
    } else {
        lemma_round_trip_prefix(ops, (n - 1) as nat);
        lemma_op_round_trip(ops[n - 1], n - 1);
        assert(ops.subrange(0, n - 1).push(ops[n - 1]) =~= ops.subrange(0, n as int));
    }
}

/// A decoded document has one operation per element of "ops", each the
/// decoding of the element at the same position.
pub proof fn lemma_decode_keeps_order(a: Seq<Json>, ops: Seq<OpModel>)
    requires
        decode_prefix(a, a.len()) == Ok::<Seq<OpModel>, DecodeError>(ops),
    ensures
        ops.len() == a.len(),
        forall|i: int| 0 <= i < a.len() ==> decode_op(a[i], i) == Ok::<OpModel, DecodeError>(#[trigger] ops[i]),
{
    lemma_prefix_order(a, a.len(), ops);
}

proof fn lemma_prefix_order(a: Seq<Json>, n: nat, ops: Seq<OpModel>)
    requires
        n <= a.len(),
        decode_prefix(a, n) == Ok::<Seq<OpModel>, DecodeError>(ops),
    ensures
        ops.len() == n,
        forall|i: int| 0 <= i < n ==> decode_op(a[i], i) == Ok::<OpModel, DecodeError>(#[trigger] ops[i]),
    decreases n,
{
    if n > 0 {
        let prev = decode_prefix(a, (n - 1) as nat)->Ok_0;
        lemma_prefix_order(a, (n - 1) as nat, prev);
        assert(ops == prev.push(decode_op(a[n - 1], n - 1)->Ok_0));
    }
}

/// An operation object with a payload, no other field and no "attributes"
/// decodes to an operation without attributes, and that operation's object
/// has no "attributes" field.
pub proof fn lemma_absent_attributes(f: Seq<(Seq<char>, Json)>, idx: int)
    requires
        has_field(f, insert_key()),
        !has_foreign_field(f),
        !has_field(f, attributes_key()),
    ensures
        decode_op(Json::Object(f), idx) is Ok,
        decode_op(Json::Object(f), idx)->Ok_0.attributes.len() == 0,
        !has_field(encode_op(decode_op(Json::Object(f), idx)->Ok_0)->Object_0, attributes_key()),
{
    lemma_keys_differ();
}

/// The plain text depends on the payloads alone: documents whose operations
/// carry the same payloads in the same order have the same plain text,
/// whatever their attributes.
pub proof fn lemma_attributes_ignored(ops1: Seq<OpModel>, ops2: Seq<OpModel>)
    requires
        ops1.len() == ops2.len(),
        forall|i: int| 0 <= i < ops1.len() ==> (#[trigger] ops1[i]).payload == ops2[i].payload,
    ensures
        plain_text_of(ops1) == plain_text_of(ops2),
    decreases ops1.len(),
{
    if ops1.len() > 0 {
        lemma_attributes_ignored(ops1.drop_last(), ops2.drop_last());
        assert(ops1.last().payload == ops2.last().payload);
    }
}

/// In an object without repeated keys, a field named `k` is the first one.
proof fn lemma_distinct_first(f: Seq<(Seq<char>, Json)>, k: Seq<char>) -> (i: int)
    requires
        distinct_keys(f),
        has_field(f, k),
    ensures
        is_first(f, k, i),
        field(f, k) == f[i].1,
{
    let i = choose|i: int| 0 <= i < f.len() && (#[trigger] f[i]).0 == k;
    assert forall|j: int| 0 <= j < i implies (#[trigger] f[j]).0 != k by {
        assert(f[j].0 != f[i].0);
    }
    lemma_first_field(f, k, i);
    i
}

proof fn lemma_op_keys_distinct(j: Json, idx: int)
    requires
        keys_distinct(j),
        decode_op(j, idx) is Ok,
    ensures
        distinct_keys(decode_op(j, idx)->Ok_0.attributes),
{
    let f = j->Object_0;
    if has_field(f, attributes_key()) {
        let k = lemma_distinct_first(f, attributes_key());
        assert(keys_distinct(f[k].1));
    }
}

/// Decoding a tree in which no object repeats a key gives operations whose
/// attributes repeat no key either.
pub proof fn lemma_decoded_keys_distinct(j: Json, ops: Seq<OpModel>)
    requires
        keys_distinct(j),
        decode_json(j) == Ok::<Seq<OpModel>, DecodeError>(ops),
    ensures
        forall|i: int| 0 <= i < ops.len() ==> distinct_keys(#[trigger] ops[i].attributes),
{
    let f = j->Object_0;
    let k = lemma_distinct_first(f, ops_key());
    assert(keys_distinct(f[k].1));
    let a = f[k].1->Array_0;
    lemma_decode_keeps_order(a, ops);
    assert forall|i: int| 0 <= i < ops.len() implies distinct_keys(#[trigger] ops[i].attributes) by {
        assert(keys_distinct(a[i]));
        lemma_op_keys_distinct(a[i], i);
    }
}

} // verus!
