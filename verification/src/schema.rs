//! Field-name schemas: which message type each msgid carries and what its
//! fields are called.

use vstd::prelude::*;

use std::collections::HashMap;

use crate::text::{
    chars_of, find_char, find_from, lemma_find_from_bounds, parse_i32, parse_i32_range, split,
    string_from_range, trim, trim_range,
};

verus! {

broadcast use vstd::std_specs::hash::group_hash_axioms;

/// One field of a message type in a compiled `.proto` file.
#[derive(Debug)]
pub struct FieldDescriptor {
    pub number: i32,
    pub name: String,
}

/// A message type of a compiled `.proto` file, with the message types
/// declared directly inside it.
#[derive(Debug)]
pub struct MessageDescriptor {
    pub name: String,
    pub fields: Vec<FieldDescriptor>,
    pub nested: Vec<MessageDescriptor>,
}

/// One compiled `.proto` file: its package (empty when it declares none)
/// and its top-level message types.
#[derive(Debug)]
pub struct FileDescriptor {
    pub package: String,
    pub messages: Vec<MessageDescriptor>,
}

/// A set of compiled `.proto` files.
#[derive(Debug)]
pub struct DescriptorSet {
    pub files: Vec<FileDescriptor>,
}

/// The bare name `name` matches `target` when the names are equal or
/// `name` ends with `.` followed by `target`.
pub open spec fn name_matches(name: Seq<char>, target: Seq<char>) -> bool {
    ||| name == target
    ||| (name.len() > target.len() && name.skip(name.len() - target.len() - 1) == seq!['.'] + target)
}

/// The prefix that qualifies the names declared at the top of a package:
/// the package and a `.`, or nothing for a file without a package.
pub open spec fn package_scope(package: Seq<char>) -> Seq<char> {
    if package.len() == 0 {
        seq![]
    } else {
        package.push('.')
    }
}

/// A message called `name`, declared where names are qualified by `scope`,
/// answers to `target` when the bare names match (see [`name_matches`]) or
/// `target` is its fully qualified name, with or without a leading `.`.
pub open spec fn answers(name: Seq<char>, scope: Seq<char>, target: Seq<char>) -> bool {
    ||| name_matches(name, target)
    ||| target == scope + name
    ||| target == seq!['.'] + scope + name
}

/// Index of the first message from `i` on, declared in `scope`, that answers
/// to `target`.
pub open spec fn first_match_from(msgs: Seq<MessageDescriptor>, scope: Seq<char>, target: Seq<char>, i: int) -> Option<int>
    decreases msgs.len() - i,
{
    if i < 0 || i >= msgs.len() {
        None
    } else if answers(msgs[i].name@, scope, target) {
        Some(i)
    } else {
        first_match_from(msgs, scope, target, i + 1)
    }
}

/// The scope of the messages nested in `outer`, itself declared in `scope`.
pub open spec fn nested_scope(scope: Seq<char>, outer: Seq<char>) -> Seq<char> {
    (scope + outer).push('.')
}

/// The fields of the first nested message answering to `target`, searching
/// the messages (declared in `scope`) from `i` on, each one's nested
/// messages in order.
pub open spec fn nested_match_from(
    msgs: Seq<MessageDescriptor>,
    scope: Seq<char>,
    target: Seq<char>,
    i: int,
) -> Option<Seq<FieldDescriptor>>
    decreases msgs.len() - i,
{
    if i < 0 || i >= msgs.len() {
        None
    } else {
        match first_match_from(msgs[i].nested@, nested_scope(scope, msgs[i].name@), target, 0) {
            Some(j) => Some(msgs[i].nested@[j].fields@),
            None => nested_match_from(msgs, scope, target, i + 1),
        }
    }
}

/// The fields of the message answering to `target` in one file: top-level
/// messages are searched before nested ones.
pub open spec fn file_match(file: FileDescriptor, target: Seq<char>) -> Option<Seq<FieldDescriptor>> {
    let scope = package_scope(file.package@);
    match first_match_from(file.messages@, scope, target, 0) {
        Some(i) => Some(file.messages@[i].fields@),
        None => nested_match_from(file.messages@, scope, target, 0),
    }
}

/// The fields of the message answering to `target` in the first file, from
/// `i` on, that has one.
pub open spec fn set_match_from(files: Seq<FileDescriptor>, target: Seq<char>, i: int) -> Option<Seq<FieldDescriptor>>
    decreases files.len() - i,
{
    if i < 0 || i >= files.len() {
        None
    } else {
        match file_match(files[i], target) {
            Some(fs) => Some(fs),
            None => set_match_from(files, target, i + 1),
        }
    }
}

/// Field number (as `u32`) to field name; a later field with the same
/// number overrides an earlier one.
pub open spec fn field_map(fields: Seq<FieldDescriptor>) -> Map<u32, String>
    decreases fields.len(),
{
    if fields.len() == 0 {
        Map::empty()
    } else {
        field_map(fields.drop_last()).insert(fields.last().number as u32, fields.last().name)
    }
}

/// The field names of the message answering to `target`; empty when there
/// is none.
pub open spec fn fields_for(set: DescriptorSet, target: Seq<char>) -> Map<u32, String> {
    match set_match_from(set.files@, target, 0) {
        Some(fs) => field_map(fs),
        None => Map::empty(),
    }
}

fn name_matches_exec(name: &String, target: &Vec<char>) -> (b: bool)
    ensures
        b == name_matches(name@, target@),
{
    let n = chars_of(name.as_str());
    if n.len() == target.len() {
        let mut i: usize = 0;
        while i < n.len()
            invariant
                i <= n.len() == target.len(),
                n@ == name@,
                forall|j: int| 0 <= j < i ==> n@[j] == target@[j],
            decreases n.len() - i,
        {
            if n[i] != target[i] {
                assert(n@ != target@) by {
                    assert(n@[i as int] != target@[i as int]);
                }
                return false;
            }
            i += 1;
        }
        assert(n@ =~= target@);
        return true;
    }
    if n.len() <= target.len() {
        assert(n@.len() != target@.len());
        assert(n@ != target@);
        return false;
    }
    let off = n.len() - target.len() - 1;
    let ghost want = seq!['.'] + target@;
    assert(n@.len() != target@.len());
    if n[off] != '.' {
        assert(n@.skip(off as int)[0] != want[0]);
        assert(n@.skip(off as int) != want);
        return false;
    }
    let mut i: usize = 0;
    while i < target.len()
        invariant
            i <= target.len(),
            off + 1 + target.len() == n.len(),
            want == seq!['.'] + target@,
            n@[off as int] == '.',
            n@.len() != target@.len(),
            n@ == name@,
            forall|j: int| 0 <= j < i ==> n@[off + 1 + j] == target@[j],
        decreases target.len() - i,
    {
        if n[off + 1 + i] != target[i] {
            assert(n@.skip(off as int)[i + 1] != want[i + 1]);
            assert(n@.skip(off as int) != want);
            return false;
        }
        i += 1;
    }
    assert(n@.skip(off as int) =~= want);
    true
}

fn chars_eq(a: &Vec<char>, b: &Vec<char>) -> (r: bool)
    ensures
        r == (a@ == b@),
{
    if a.len() != b.len() {
        return false;
    }
    let mut i: usize = 0;
    while i < a.len()
        invariant
            i <= a.len() == b.len(),
            forall|j: int| 0 <= j < i ==> a@[j] == b@[j],
        decreases a.len() - i,
    {
        if a[i] != b[i] {
            return false;
        }
        i += 1;
    }
    assert(a@ =~= b@);
    true
}

fn append_chars(out: &mut Vec<char>, s: &Vec<char>)
    ensures
        final(out)@ == old(out)@ + s@,
{
    let mut i: usize = 0;
    while i < s.len()
        invariant
            i <= s.len(),
            out@ == old(out)@ + s@.take(i as int),
        decreases s.len() - i,
    {
        out.push(s[i]);
        i += 1;
        assert(out@ =~= old(out)@ + s@.take(i as int));
    }
    assert(s@.take(i as int) =~= s@);
}

fn answers_exec(name: &String, scope: &Vec<char>, target: &Vec<char>) -> (b: bool)
    ensures
        b == answers(name@, scope@, target@),
{
    if name_matches_exec(name, target) {
        return true;
    }
    let n = chars_of(name.as_str());
    let mut full: Vec<char> = Vec::new();
    append_chars(&mut full, scope);
    append_chars(&mut full, &n);
    assert(full@ =~= scope@ + name@);
    if chars_eq(&full, target) {
        return true;
    }
    let mut dotted: Vec<char> = Vec::new();
    dotted.push('.');
    append_chars(&mut dotted, &full);
    assert(dotted@ =~= seq!['.'] + scope@ + name@);
    chars_eq(&dotted, target)
}

fn first_match(msgs: &Vec<MessageDescriptor>, scope: &Vec<char>, target: &Vec<char>) -> (r: Option<usize>)
    ensures
        match r {
            Some(i) => i < msgs.len() && first_match_from(msgs@, scope@, target@, 0) == Some(i as int),
            None => first_match_from(msgs@, scope@, target@, 0) is None,
        },
{
    let mut i: usize = 0;
    while i < msgs.len()
        invariant
            i <= msgs.len(),
            first_match_from(msgs@, scope@, target@, 0) == first_match_from(msgs@, scope@, target@, i as int),
        decreases msgs.len() - i,
    {
        if answers_exec(&msgs[i].name, scope, target) {
            return Some(i);
        }
        i += 1;
    }
    None
}

fn package_scope_exec(package: &String) -> (v: Vec<char>)
    ensures
        v@ == package_scope(package@),
{
    let mut v = chars_of(package.as_str());
    if v.len() > 0 {
        v.push('.');
    }
    v
}

fn nested_scope_exec(scope: &Vec<char>, outer: &String) -> (v: Vec<char>)
    ensures
        v@ == nested_scope(scope@, outer@),
{
    let mut v: Vec<char> = Vec::new();
    append_chars(&mut v, scope);
    let o = chars_of(outer.as_str());
    append_chars(&mut v, &o);
    v.push('.');
    v
}

fn build_field_map(fields: &Vec<FieldDescriptor>) -> (m: HashMap<u32, String>)
    ensures
        m@ == field_map(fields@),
{
    let mut m: HashMap<u32, String> = HashMap::new();
    let mut i: usize = 0;
    assert(fields@.take(0) =~= seq![]);
    while i < fields.len()
        invariant
            i <= fields.len(),
            m@ == field_map(fields@.take(i as int)),
        decreases fields.len() - i,
    {
        let number = #[verifier::truncate] (fields[i].number as u32);
        assert(fields@.take(i + 1).drop_last() =~= fields@.take(i as int));
        m.insert(number, fields[i].name.clone());
        i += 1;
    }
    assert(fields@.take(i as int) =~= fields@);
    m
}

/// Extract `field_number -> field_name` for the message answering to
/// `msg_name`, which may be bare (`LoginReq`) or fully qualified
/// (`pkg.LoginReq`); empty when no message answers to it.
pub fn extract_fields(set: &DescriptorSet, msg_name: &Vec<char>) -> (m: HashMap<u32, String>)
    ensures
        m@ == fields_for(*set, msg_name@),
{
    let mut f: usize = 0;
    while f < set.files.len()
        invariant
            f <= set.files.len(),
            set_match_from(set.files@, msg_name@, 0) == set_match_from(set.files@, msg_name@, f as int),
        decreases set.files.len() - f,
    {
        let msgs = &set.files[f].messages;
        let scope = package_scope_exec(&set.files[f].package);
        if let Some(i) = first_match(msgs, &scope, msg_name) {
            return build_field_map(&msgs[i].fields);
        }
        let mut k: usize = 0;
        while k < msgs.len()
            invariant
                k <= msgs.len(),
                msgs@ == set.files@[f as int].messages@,
                scope@ == package_scope(set.files@[f as int].package@),
                first_match_from(msgs@, scope@, msg_name@, 0) is None,
                set_match_from(set.files@, msg_name@, 0) == set_match_from(set.files@, msg_name@, f as int),
                nested_match_from(msgs@, scope@, msg_name@, 0) == nested_match_from(msgs@, scope@, msg_name@, k as int),
                f < set.files.len(),
            decreases msgs.len() - k,
        {
            let inner = nested_scope_exec(&scope, &msgs[k].name);
            if let Some(j) = first_match(&msgs[k].nested, &inner, msg_name) {
                return build_field_map(&msgs[k].nested[j].fields);
            }
            k += 1;
        }
        f += 1;
    }
    HashMap::new()
}

/// A decoded proto schema: msgid -> (message type name, field_number -> field_name).
pub struct Schema {
    /// msgid -> (msg_type, field_number → field_name)
    pub messages: HashMap<i32, (String, HashMap<u32, String>)>,
}

/// Why a schema could not be built.
#[derive(Debug, PartialEq, Eq)]
pub enum SchemaError {
    /// A msgid in the map is not a decimal `i32`.
    BadMsgid(String),
}

/// The mathematical value of a schema table.
pub open spec fn schema_view(m: Map<i32, (String, HashMap<u32, String>)>) -> Map<i32, (Seq<char>, Map<u32, String>)> {
    Map::new(|k: i32| m.contains_key(k), |k: i32| (m[k].0@, m[k].1@))
}

/// The msgid text and the type name of one `msgid:TypeName` pair: both
/// trimmed, the type name empty when there is no `:`.
pub open spec fn pair_parts(pair: Seq<char>) -> (Seq<char>, Seq<char>) {
    match find_from(pair, ':', 0) {
        Some(k) => (trim(pair.take(k)), trim(pair.skip(k + 1))),
        None => (trim(pair), seq![]),
    }
}

/// The schema table described by the comma-separated pieces `pieces`:
/// blank pieces are skipped; a later msgid overrides an earlier one; the
/// first msgid that is not a decimal `i32` is the error.
pub open spec fn schema_from_pieces(set: DescriptorSet, pieces: Seq<Seq<char>>) -> Result<
    Map<i32, (Seq<char>, Map<u32, String>)>,
    Seq<char>,
>
    decreases pieces.len(),
{
    if pieces.len() == 0 {
        Ok(Map::empty())
    } else {
        match schema_from_pieces(set, pieces.drop_last()) {
            Err(e) => Err(e),
            Ok(m) => {
                let pair = trim(pieces.last());
                if pair.len() == 0 {
                    Ok(m)
                } else {
                    let (id, msg_type) = pair_parts(pair);
                    match parse_i32(id) {
                        None => Err(id),
                        Some(msgid) => Ok(m.insert(msgid, (msg_type, fields_for(set, msg_type)))),
                    }
                }
            },
        }
    }
}

/// The schema table described by `msgid_map` (`"1001:LoginReq,1002:MoveReq"`).
pub open spec fn schema_of(set: DescriptorSet, msgid_map: Seq<char>) -> Result<
    Map<i32, (Seq<char>, Map<u32, String>)>,
    Seq<char>,
> {
    schema_from_pieces(set, split(msgid_map, ','))
}

impl Schema {
    /// Wire up field-name mappings from compiled descriptors according to the
    /// `msgid_map` string (`"1001:LoginReq,1002:MoveReq"`).
    pub fn load(descriptors: &DescriptorSet, msgid_map: &str) -> (r: Result<Self, SchemaError>)
        ensures
            match r {
                Ok(s) => schema_of(*descriptors, msgid_map@) == Ok::<_, Seq<char>>(schema_view(s.messages@)),
                Err(SchemaError::BadMsgid(id)) => schema_of(*descriptors, msgid_map@) == Err::<
                    Map<i32, (Seq<char>, Map<u32, String>)>,
                    _,
                >(id@),
            },
    {
        let chars = chars_of(msgid_map);
        let ghost s = chars@;
        let mut messages: HashMap<i32, (String, HashMap<u32, String>)> = HashMap::new();
        let mut a: usize = 0;
        let ghost mut done: Seq<Seq<char>> = seq![];
        assert(s.skip(0) =~= s);
        assert(schema_view(messages@) =~= Map::empty());
        loop
            invariant
                a <= chars.len(),
                s == chars@,
                s == msgid_map@,
                split(s, ',') == done + split(s.skip(a as int), ','),
                schema_from_pieces(*descriptors, done) == Ok::<_, Seq<char>>(schema_view(messages@)),
            decreases chars.len() - a,
        {
            let ghost rest = s.skip(a as int);
            assert(chars@.subrange(a as int, chars.len() as int) =~= rest);
            let found = find_char(&chars, a, chars.len(), ',');
            proof {
                lemma_find_from_bounds(rest, ',', 0);
            }
            let (b, last) = match found {
                Some(b) => (b, false),
                None => (chars.len(), true),
            };
            let ghost piece = chars@.subrange(a as int, b as int);
            proof {
                if last {
                    assert(piece =~= rest);
                    assert(split(rest, ',') == seq![rest]);
                } else {
                    assert(piece =~= rest.take(b - a));
                    assert(rest.skip(b - a + 1) =~= s.skip(b + 1));
                    assert(split(rest, ',') == seq![piece] + split(s.skip(b + 1), ','));
                }
            }
            let (p0, p1) = trim_range(&chars, a, b);
            if p0 < p1 {
                let ghost pair = chars@.subrange(p0 as int, p1 as int);
                let colon = find_char(&chars, p0, p1, ':');
                let (i0, i1, t0, t1) = match colon {
                    Some(k) => {
                        let (i0, i1) = trim_range(&chars, p0, k);
                        let (t0, t1) = trim_range(&chars, k + 1, p1);
                        proof {
                            lemma_find_from_bounds(pair, ':', 0);
                            assert(pair.take(k - p0) =~= chars@.subrange(p0 as int, k as int));
                            assert(pair.skip(k - p0 + 1) =~= chars@.subrange(k + 1, p1 as int));
                        }
                        (i0, i1, t0, t1)
                    },
                    None => {
                        let (i0, i1) = trim_range(&chars, p0, p1);
                        (i0, i1, p1, p1)
                    },
                };
                let ghost id_chars = chars@.subrange(i0 as int, i1 as int);
                let ghost type_chars = chars@.subrange(t0 as int, t1 as int);
                proof {
                    assert(trim(pair) == pair) by {
                        crate::text::lemma_trim_idempotent(chars@.subrange(a as int, b as int));
                    }
                    if colon is None {
                        assert(type_chars =~= seq![]);
                    }
                    assert(pair_parts(pair) == (id_chars, type_chars));
                }
                match parse_i32_range(&chars, i0, i1) {
                    None => {
                        proof {
                            assert(done.push(piece).drop_last() =~= done);
                            lemma_schema_prefix_err(*descriptors, done.push(piece), split(s.skip(b + 1), ','), last);
                            assert(split(s, ',') =~= done.push(piece) + (if last { seq![] } else { split(s.skip(b + 1), ',') }));
                        }
                        return Err(SchemaError::BadMsgid(string_from_range(&chars, i0, i1)));
                    },
                    Some(msgid) => {
                        let msg_type = string_from_range(&chars, t0, t1);
                        let type_vec = chars_slice_to_vec(&chars, t0, t1);
                        let field_names = extract_fields(descriptors, &type_vec);
                        let ghost before = schema_view(messages@);
                        messages.insert(msgid, (msg_type, field_names));
                        proof {
                            assert(schema_view(messages@) =~= before.insert(msgid, (type_chars, fields_for(*descriptors, type_chars))));
                            assert(done.push(piece).drop_last() =~= done);
                        }
                    },
                }
            } else {
                proof {
                    assert(done.push(piece).drop_last() =~= done);
                    assert(trim(piece).len() == 0);
                }
            }
            proof {
                done = done.push(piece);
            }
            if last {
                assert(split(s, ',') =~= done);
                return Ok(Schema { messages });
            }
            proof {
                assert(split(s, ',') =~= done + split(s.skip(b + 1), ','));
            }
            a = b + 1;
        }
    }

    pub fn get(&self, msgid: i32) -> (r: Option<&(String, HashMap<u32, String>)>)
        ensures
            match r {
                Some(v) => self.messages@.contains_key(msgid) && self.messages@[msgid] == *v,
                None => !self.messages@.contains_key(msgid),
            },
    {
        self.messages.get(&msgid)
    }
}

fn chars_slice_to_vec(chars: &Vec<char>, from: usize, to: usize) -> (v: Vec<char>)
    requires
        from <= to <= chars.len(),
    ensures
        v@ == chars@.subrange(from as int, to as int),
{
    let mut v: Vec<char> = Vec::new();
    let mut i = from;
    while i < to
        invariant
            from <= i <= to <= chars.len(),
            v@ == chars@.subrange(from as int, i as int),
        decreases to - i,
    {
        v.push(chars[i]);
        i += 1;
        assert(v@ =~= chars@.subrange(from as int, i as int));
    }
    v
}

/// Once some prefix of the pieces fails, every longer prefix fails the same way.
proof fn lemma_schema_prefix_err(set: DescriptorSet, done: Seq<Seq<char>>, more: Seq<Seq<char>>, last: bool)
    requires
        schema_from_pieces(set, done) is Err,
    ensures
        schema_from_pieces(set, done + (if last { seq![] } else { more })) == schema_from_pieces(set, done),
    decreases more.len(),
{
    let extra = if last { seq![] } else { more };
    if extra.len() == 0 {
        assert(done + extra =~= done);
    } else {
        lemma_schema_prefix_err(set, done, extra.drop_last(), false);
        assert((done + extra).drop_last() =~= done + extra.drop_last());
    }
}

proof fn lemma_bad_piece(set: DescriptorSet, pieces: Seq<Seq<char>>, p: int)
    requires
        0 <= p < pieces.len(),
        trim(pieces[p]).len() > 0,
        parse_i32(pair_parts(trim(pieces[p])).0) is None,
    ensures
        schema_from_pieces(set, pieces) is Err,
    decreases pieces.len(),
{
    if p < pieces.len() - 1 {
        assert(pieces.drop_last()[p] == pieces[p]);
        lemma_bad_piece(set, pieces.drop_last(), p);
    }
}

/// A msgid map with a non-blank entry whose msgid is not a decimal `i32`
/// gives no schema at all.
pub proof fn lemma_bad_msgid_fails(set: DescriptorSet, msgid_map: Seq<char>, p: int)
    requires
        0 <= p < split(msgid_map, ',').len(),
        trim(split(msgid_map, ',')[p]).len() > 0,
        parse_i32(pair_parts(trim(split(msgid_map, ',')[p])).0) is None,
    ensures
        schema_of(set, msgid_map) is Err,
{
    lemma_bad_piece(set, split(msgid_map, ','), p);
}

proof fn lemma_first_match_found(msgs: Seq<MessageDescriptor>, scope: Seq<char>, target: Seq<char>, i: int, j: int)
    requires
        0 <= i <= j < msgs.len(),
        answers(msgs[j].name@, scope, target),
    ensures
        first_match_from(msgs, scope, target, i) matches Some(k) && i <= k <= j && answers(
            msgs[k].name@,
            scope,
            target,
        ) && forall|l: int| i <= l < k ==> !answers(#[trigger] msgs[l].name@, scope, target),
    decreases j - i,
{
    if !answers(msgs[i].name@, scope, target) {
        lemma_first_match_found(msgs, scope, target, i + 1, j);
    }
}

proof fn lemma_nested_match_found(msgs: Seq<MessageDescriptor>, scope: Seq<char>, target: Seq<char>, i: int, a: int, b: int)
    requires
        0 <= i <= a < msgs.len(),
        0 <= b < msgs[a].nested@.len(),
        answers(msgs[a].nested@[b].name@, nested_scope(scope, msgs[a].name@), target),
    ensures
        exists|k: int, l: int|
            i <= k <= a && 0 <= l < msgs[k].nested@.len() && answers(
                #[trigger] msgs[k].nested@[l].name@,
                nested_scope(scope, msgs[k].name@),
                target,
            ) && nested_match_from(msgs, scope, target, i) == Some(msgs[k].nested@[l].fields@),
    decreases a - i,
{
    let inner = msgs[i].nested@;
    let sc = nested_scope(scope, msgs[i].name@);
    match first_match_from(inner, sc, target, 0) {
        Some(l) => {
            if i == a {
                lemma_first_match_found(inner, sc, target, 0, b);
            } else {
                lemma_first_match_found_some(inner, sc, target, 0);
            }
            assert(answers(msgs[i].nested@[l].name@, nested_scope(scope, msgs[i].name@), target));
        },
        None => {
            if i == a {
                lemma_first_match_found(inner, sc, target, 0, b);
            }
            lemma_nested_match_found(msgs, scope, target, i + 1, a, b);
        },
    }
}

proof fn lemma_first_match_found_some(msgs: Seq<MessageDescriptor>, scope: Seq<char>, target: Seq<char>, i: int)
    requires
        0 <= i,
        first_match_from(msgs, scope, target, i) is Some,
    ensures
        first_match_from(msgs, scope, target, i) matches Some(k) && i <= k < msgs.len() && answers(
            msgs[k].name@,
            scope,
            target,
        ),
    decreases msgs.len() - i,
{
    if i < msgs.len() && !answers(msgs[i].name@, scope, target) {
        lemma_first_match_found_some(msgs, scope, target, i + 1);
    }
}

/// In one file, a top-level message answering to `target` is found first,
/// the earliest one; when none answers, a message nested directly in any
/// top-level message and answering to `target` is found: one nested in the
/// earliest top-level message that has such a nested message.
pub proof fn lemma_file_match_finds(file: FileDescriptor, target: Seq<char>)
    ensures
        ({
            let msgs = file.messages@;
            let scope = package_scope(file.package@);
            &&& (exists|i: int| 0 <= i < msgs.len() && answers(#[trigger] msgs[i].name@, scope, target)) ==> exists|i: int|
                0 <= i < msgs.len() && answers(#[trigger] msgs[i].name@, scope, target) && file_match(file, target)
                    == Some(msgs[i].fields@) && forall|l: int|
                    0 <= l < i ==> !answers(#[trigger] msgs[l].name@, scope, target)
            &&& (forall|i: int| 0 <= i < msgs.len() ==> !answers(#[trigger] msgs[i].name@, scope, target)) && (exists|
                a: int,
                b: int,
            |
                0 <= a < msgs.len() && 0 <= b < msgs[a].nested@.len() && answers(
                    #[trigger] msgs[a].nested@[b].name@,
                    nested_scope(scope, msgs[a].name@),
                    target,
                )) ==> exists|k: int, l: int|
                0 <= k < msgs.len() && 0 <= l < msgs[k].nested@.len() && answers(
                    #[trigger] msgs[k].nested@[l].name@,
                    nested_scope(scope, msgs[k].name@),
                    target,
                ) && file_match(file, target) == Some(msgs[k].nested@[l].fields@)
        }),
{
    let msgs = file.messages@;
    let scope = package_scope(file.package@);
    if exists|i: int| 0 <= i < msgs.len() && answers(#[trigger] msgs[i].name@, scope, target) {
        let j = choose|i: int| 0 <= i < msgs.len() && answers(#[trigger] msgs[i].name@, scope, target);
        lemma_first_match_found(msgs, scope, target, 0, j);
    }
    if (forall|i: int| 0 <= i < msgs.len() ==> !answers(#[trigger] msgs[i].name@, scope, target)) && (exists|
        a: int,
        b: int,
    |
        0 <= a < msgs.len() && 0 <= b < msgs[a].nested@.len() && answers(
            #[trigger] msgs[a].nested@[b].name@,
            nested_scope(scope, msgs[a].name@),
            target,
        )) {
        let (a, b) = choose|a: int, b: int|
            0 <= a < msgs.len() && 0 <= b < msgs[a].nested@.len() && answers(
                #[trigger] msgs[a].nested@[b].name@,
                nested_scope(scope, msgs[a].name@),
                target,
            );
        if let Some(i) = first_match_from(msgs, scope, target, 0) {
            lemma_first_match_found_some(msgs, scope, target, 0);
        }
        lemma_nested_match_found(msgs, scope, target, 0, a, b);
    }
}

} // verus!
