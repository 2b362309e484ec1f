//! The tagged wire value type and its spec-level model.
use vstd::prelude::*;

use crate::types::codec::{
    chars_of, crlf, dec_of_int, format_i128, parse_elements, parse_scalar_exec, scalar_line,
    spec_parse, spec_serialize, spec_serialize_elems, split_crlf, split_crlf_exec,
    lemma_serialize_elems_push,
};
use crate::types::{ArrayType, ErrorView, EventChannelType, IntegerType, RedisError, StringType};
use vstd::string::StringExecFns;

verus! {

/// A wire value: the tagged union carried by the protocol and stored
/// by the key-value table.
#[derive(Debug, Hash, Eq, PartialEq)]
pub enum RedisType {
    String(StringType),
    Integer(IntegerType),
    Array(ArrayType),
    EventChannel(EventChannelType),
    Error(StringType),
    Null,
    Okay,
}

/// The mathematical shape of a wire value: text as character sequences,
/// integers as unbounded `int`, arrays as sequences of shapes.
pub enum ValueView {
    Str(Seq<char>),
    Int(int),
    Arr(Seq<ValueView>),
    Chan,
    Fail(Seq<char>),
    Null,
    Okay,
}

/// Pushing a value appends its shape.
pub proof fn lemma_shapes_of_push(s: Seq<RedisType>, x: RedisType)
    ensures
        shapes_of(s.push(x)) == shapes_of(s).push(x.deep_view()),
{
    assert(shapes_of(s.push(x)) =~= shapes_of(s).push(x.deep_view()));
}

/// Removing a value removes its shape.
pub proof fn lemma_shapes_of_remove(s: Seq<RedisType>, i: int)
    requires
        0 <= i < s.len(),
    ensures
        shapes_of(s.remove(i)) == shapes_of(s).remove(i),
{
    assert(shapes_of(s.remove(i)) =~= shapes_of(s).remove(i));
}

/// Dropping the first value drops the first shape.
pub proof fn lemma_shapes_of_drop_first(s: Seq<RedisType>)
    requires
        s.len() >= 1,
    ensures
        shapes_of(s.drop_first()) == shapes_of(s).drop_first(),
{
    assert(shapes_of(s.drop_first()) =~= shapes_of(s).drop_first());
}

impl DeepView for RedisType {
    type V = ValueView;

    open spec fn deep_view(&self) -> ValueView {
        self.shape()
    }
}

/// The shapes of a sequence of wire values, element by element.
pub open spec fn shapes_of(s: Seq<RedisType>) -> Seq<ValueView>
    decreases s,
    via shapes_of_decreases
{
    Seq::new(
        s.len(),
        |i: int|
            if 0 <= i < s.len() {
                s[i].shape()
            } else {
                ValueView::Null
            },
    )
}

#[via_fn]
proof fn shapes_of_decreases(s: Seq<RedisType>) {
    assert forall|i: int| 0 <= i < s.len() implies decreases_to!(s => s[i]) by {
        vstd::seq::axiom_seq_index_decreases(s, i);
    }
}

impl RedisType {
    /// The spec-level shape of this value.
    pub open spec fn shape(self) -> ValueView
        decreases self,
        via RedisType::shape_decreases
    {
        match self {
            RedisType::String(s) => ValueView::Str(s@),
            RedisType::Integer(i) => ValueView::Int(i as int),
            RedisType::Array(a) => ValueView::Arr(shapes_of(a@)),
            RedisType::EventChannel(_) => ValueView::Chan,
            RedisType::Error(s) => ValueView::Fail(s@),
            RedisType::Null => ValueView::Null,
            RedisType::Okay => ValueView::Okay,
        }
    }

    #[via_fn]
    proof fn shape_decreases(self) {
        match self {
            RedisType::Array(a) => {
                assert(decreases_to!(self => self->Array_0));
                assert(decreases_to!(self->Array_0 => self->Array_0@));
                assert(a@ == self->Array_0@);
            },
            _ => {},
        }
    }

    /// Structural equality of two wire values: true exactly when the
    /// spec-level shapes agree.
    pub fn same_value(&self, other: &RedisType) -> (r: bool)
        ensures
            r == (self.deep_view() == other.deep_view()),
        decreases self,
    {
        match self {
            RedisType::String(a) => match other {
                RedisType::String(b) => *a == *b,
                _ => false,
            },
            RedisType::Integer(a) => match other {
                RedisType::Integer(b) => *a == *b,
                _ => false,
            },
            RedisType::Array(a) => match other {
                RedisType::Array(b) => {
                    if a.len() != b.len() {
                        proof {
                            assert(self.deep_view()->Arr_0.len() == a@.len());
                            assert(other.deep_view()->Arr_0.len() == b@.len());
                        }
                        return false;
                    }
                    let mut i: usize = 0;
                    while i < a.len()
                        invariant
                            i <= a.len(),
                            a.len() == b.len(),
                            self == RedisType::Array(*a),
                            other == RedisType::Array(*b),
                            forall|j: int|
                                0 <= j < i as int ==> a@[j].deep_view() == b@[j].deep_view(),
                        decreases a.len() - i,
                    {
                        proof {
                            assert(decreases_to!(*self => self->Array_0));
                            vstd::std_specs::vec::axiom_vec_index_decreases(*a, i as int);
                        }
                        if !a[i].same_value(&b[i]) {
                            proof {
                                assert(self.deep_view()->Arr_0[i as int] == a@[i as int].shape());
                                assert(other.deep_view()->Arr_0[i as int] == b@[i as int].shape());
                            }
                            return false;
                        }
                        i = i + 1;
                    }
                    proof {
                        assert(shapes_of(a@) =~= shapes_of(b@));
                    }
                    true
                },
                _ => false,
            },
            RedisType::EventChannel(_) => match other {
                RedisType::EventChannel(_) => true,
                _ => false,
            },
            RedisType::Error(a) => match other {
                RedisType::Error(b) => *a == *b,
                _ => false,
            },
            RedisType::Null => match other {
                RedisType::Null => true,
                _ => false,
            },
            RedisType::Okay => match other {
                RedisType::Okay => true,
                _ => false,
            },
        }
    }
}

impl Clone for RedisType {
    /// A structural copy: the copy has the same shape as the original.
    fn clone(&self) -> (r: RedisType)
        ensures
            r.deep_view() == self.deep_view(),
        decreases self,
    {
        match self {
            RedisType::String(s) => RedisType::String(s.clone()),
            RedisType::Integer(i) => RedisType::Integer(*i),
            RedisType::Array(a) => {
                let mut out: Vec<RedisType> = Vec::new();
                let mut i: usize = 0;
                while i < a.len()
                    invariant
                        i <= a.len(),
                        self == RedisType::Array(*a),
                        out@.len() == i as int,
                        forall|j: int|
                            0 <= j < i as int ==> out@[j].deep_view() == a@[j].deep_view(),
                    decreases a.len() - i,
                {
                    proof {
                        assert(decreases_to!(*self => self->Array_0));
                        vstd::std_specs::vec::axiom_vec_index_decreases(*a, i as int);
                    }
                    out.push(a[i].clone());
                    i = i + 1;
                }
                proof {
                    assert(shapes_of(out@) =~= shapes_of(a@));
                }
                RedisType::Array(out)
            },
            RedisType::EventChannel(_) => RedisType::EventChannel(()),
            RedisType::Error(s) => RedisType::Error(s.clone()),
            RedisType::Null => RedisType::Null,
            RedisType::Okay => RedisType::Okay,
        }
    }
}

impl RedisType {
    /// The wire encoding of this value, CRLF terminators included.
    #[verifier::spinoff_prover]
    #[verifier::rlimit(50)]
    pub fn as_string_formatted(&self) -> (s: String)
        ensures
            s@ == spec_serialize(self.deep_view()),
        decreases self,
    {
        match self {
            RedisType::String(t) => {
                let mut s = String::new();
                s.append("+");
                s.append(t.as_str());
                s.append("\r\n");
                proof {
                    reveal_strlit("+");
                    reveal_strlit("\r\n");
                    assert(s@ =~= scalar_line(self.deep_view()) + crlf());
                }
                s
            },
            RedisType::Integer(i) => {
                let mut s = String::new();
                s.append(":");
                let d = format_i128(*i);
                s.append(d.as_str());
                s.append("\r\n");
                proof {
                    reveal_strlit(":");
                    reveal_strlit("\r\n");
                    assert(s@ =~= scalar_line(self.deep_view()) + crlf());
                }
                s
            },
            RedisType::Array(a) => {
                let mut s = String::new();
                s.append("*");
                let n = a.len();
                let d = format_i128(n as i128);
                s.append(d.as_str());
                s.append("\r\n");
                let ghost elems = shapes_of(a@);
                proof {
                    reveal_strlit("*");
                    reveal_strlit("\r\n");
                    assert(spec_serialize_elems(elems.subrange(0, 0)) =~= Seq::<char>::empty());
                    assert(s@ =~= seq!['*'] + dec_of_int(elems.len() as int) + crlf()
                        + spec_serialize_elems(elems.subrange(0, 0)));
                }
                let mut i: usize = 0;
                while i < a.len()
                    invariant
                        i <= a.len(),
                        self == RedisType::Array(*a),
                        elems == shapes_of(a@),
                        s@ == seq!['*'] + dec_of_int(elems.len() as int) + crlf()
                            + spec_serialize_elems(elems.subrange(0, i as int)),
                    decreases a.len() - i,
                {
                    proof {
                        assert(decreases_to!(*self => self->Array_0));
                        vstd::std_specs::vec::axiom_vec_index_decreases(*a, i as int);
                        reveal_strlit("\r\n");
                    }
                    let e = a[i].as_string_formatted();
                    s.append(e.as_str());
                    s.append("\r\n");
                    proof {
                        assert(elems[i as int] == a@[i as int].shape());
                        lemma_serialize_elems_push(elems.subrange(0, i as int), elems[i as int]);
                        assert(elems.subrange(0, i as int + 1) =~= elems.subrange(
                            0,
                            i as int,
                        ).push(elems[i as int]));
                        assert(s@ =~= seq!['*'] + dec_of_int(elems.len() as int) + crlf()
                            + spec_serialize_elems(elems.subrange(0, i as int + 1)));
                    }
                    i = i + 1;
                }
                proof {
                    assert(elems.subrange(0, elems.len() as int) =~= elems);
                }
                s
            },
            RedisType::Error(t) => {
                let mut s = String::new();
                s.append("-");
                s.append(t.as_str());
                s.append("\r\n");
                proof {
                    reveal_strlit("-");
                    reveal_strlit("\r\n");
                    assert(s@ =~= scalar_line(self.deep_view()) + crlf());
                }
                s
            },
            RedisType::EventChannel(_) => {
                let s = String::from_str("+OK\r\n");
                proof {
                    reveal_strlit("+OK\r\n");
                    assert(s@ =~= scalar_line(self.deep_view()) + crlf());
                }
                s
            },
            RedisType::Null => {
                let s = String::from_str("$-1\r\n");
                proof {
                    reveal_strlit("$-1\r\n");
                    assert(s@ =~= scalar_line(self.deep_view()) + crlf());
                }
                s
            },
            RedisType::Okay => {
                let s = String::from_str("+OK\r\n");
                proof {
                    reveal_strlit("+OK\r\n");
                    assert(s@ =~= scalar_line(self.deep_view()) + crlf());
                }
                s
            },
        }
    }

    /// Reads a wire text as a value. The first line decides: a `*` tag
    /// opens an array whose elements are the remaining non-empty lines,
    /// one each; any other first line is read on its own.
    #[verifier::spinoff_prover]
    #[verifier::rlimit(50)]
    pub fn parse(input: String) -> (r: Result<RedisType, RedisError>)
        ensures
            (r is Ok) == (spec_parse(input@) is Ok),
            r matches Ok(v) ==> spec_parse(input@) == Ok::<ValueView, ErrorView>(v.deep_view()),
            r matches Err(e) ==> spec_parse(input@) == Err::<ValueView, ErrorView>(e.deep_view()),
    {
        let chars = chars_of(input.as_str());
        let lines = split_crlf_exec(&chars);
        let ghost lv = split_crlf(input@);
        proof {
            crate::types::codec::lemma_split_crlf_len(input@);
        }
        if lines[0].len() > 0 && {
            let c = lines[0][0];
            c == '*'
        } {
            let mut elems: Vec<RedisType> = Vec::new();
            let mut i: usize = 1;
            proof {
                assert(lv.skip(1) =~= lv.skip(1));
                assert(shapes_of(elems@) =~= Seq::<ValueView>::empty());
            }
            while i < lines.len()
                invariant
                    1 <= i <= lines@.len(),
                    lines@.len() == lv.len(),
                    lv == split_crlf(input@),
                    lv[0].len() > 0 && lv[0][0] == '*',
                    forall|k: int| 0 <= k < lv.len() ==> #[trigger] lines@[k]@ == lv[k],
                    match parse_elements(lv.skip(i as int)) {
                        Ok(vs) => parse_elements(lv.skip(1)) == Ok::<Seq<ValueView>, ErrorView>(
                            shapes_of(elems@) + vs,
                        ),
                        Err(e) => parse_elements(lv.skip(1)) == Err::<Seq<ValueView>, ErrorView>(e),
                    },
                decreases lines@.len() - i,
            {
                let ghost ti = lv.skip(i as int);
                proof {
                    assert(ti[0] == lv[i as int]);
                    assert(ti.skip(1) =~= lv.skip(i as int + 1));
                }
                if lines[i].len() == 0 {
                    i = i + 1;
                } else {
                    match parse_scalar_exec(&lines[i], &lines[i]) {
                        Ok(v) => {
                            let ghost old_elems = elems@;
                            elems.push(v);
                            proof {
                                assert(shapes_of(elems@) =~= shapes_of(old_elems).push(
                                    v.deep_view(),
                                ));
                                if parse_elements(lv.skip(i as int + 1)) is Ok {
                                    let vs = parse_elements(lv.skip(i as int + 1))->Ok_0;
                                    assert(parse_elements(ti) == Ok::<Seq<ValueView>, ErrorView>(
                                        seq![v.deep_view()].add(vs),
                                    ));
                                    assert(shapes_of(old_elems) + (seq![v.deep_view()] + vs)
                                        =~= shapes_of(elems@) + vs);
                                }
                            }
                            i = i + 1;
                        },
                        Err(e) => {
                            proof {
                                assert(parse_elements(ti) == Err::<Seq<ValueView>, ErrorView>(
                                    e.deep_view(),
                                ));
                            }
                            return Err(e);
                        },
                    }
                }
            }
            proof {
                assert(lv.skip(i as int) =~= Seq::<Seq<char>>::empty());
                assert(parse_elements(lv.skip(i as int)) == Ok::<Seq<ValueView>, ErrorView>(
                    Seq::empty(),
                ));
                assert(shapes_of(elems@) + Seq::<ValueView>::empty() =~= shapes_of(elems@));
            }
            Ok(RedisType::Array(elems))
        } else {
            let r = parse_scalar_exec(&lines[0], &chars);
            r
        }
    }
}

} // verus!
