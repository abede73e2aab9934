//! What the command line asks for, and the `WIDTHxHEIGHT` size argument.
use vstd::prelude::*;
use vstd::string::StringSliceAdditionalSpecFns;
use vstd::utf8::encode_utf8;

verus! {

/// Render one page to a file and stop.
pub struct RenderOnceParams {
    pub html_path: String,
    pub viewport_size: (u32, u32),
    pub output_path: String,
}

pub enum Action {
    RenderOnce(RenderOnceParams),
    StartMain,
}

/// The arguments of the `render` subcommand, as given.
pub struct RenderArgs {
    pub html: String,
    pub size: String,
    pub output: String,
    pub once: bool,
}

/// The byte that separates the fields of a size.
pub const SIZE_SEPARATOR: u8 = 0x78;

/// `bs` cut at every separator byte; no separator gives one field, and an
/// empty input one empty field.
pub open spec fn split_fields(bs: Seq<u8>) -> Seq<Seq<u8>>
    decreases bs.len(),
{
    if bs.len() == 0 {
        seq![Seq::empty()]
    } else {
        let prev = split_fields(bs.drop_last());
        if bs.last() == SIZE_SEPARATOR {
            prev.push(Seq::empty())
        } else {
            prev.update(prev.len() - 1, prev.last().push(bs.last()))
        }
    }
}

pub open spec fn is_digit(b: u8) -> bool {
    0x30 <= b <= 0x39
}

/// The decimal value of a run of digits.
pub open spec fn digits_value(ds: Seq<u8>) -> nat
    decreases ds.len(),
{
    if ds.len() == 0 {
        0
    } else {
        digits_value(ds.drop_last()) * 10 + (ds.last() - 0x30) as nat
    }
}

/// The digits of a field: all of it, or what follows a leading `+`.
pub open spec fn field_digits(f: Seq<u8>) -> Seq<u8> {
    if f.len() > 0 && f[0] == 0x2b {
        f.drop_first()
    } else {
        f
    }
}

/// A field read as a `u32`: an optional `+` and at least one digit, with
/// nothing else, of a value that fits.
pub open spec fn field_value(f: Seq<u8>) -> Option<u32> {
    let ds = field_digits(f);
    if ds.len() > 0 && (forall|k: int| 0 <= k < ds.len() ==> is_digit(#[trigger] ds[k]))
        && digits_value(ds) <= u32::MAX {
        Some(digits_value(ds) as u32)
    } else {
        None
    }
}

/// The values of the fields that read as numbers, in order.
pub open spec fn field_values(fs: Seq<Seq<u8>>) -> Seq<u32>
    decreases fs.len(),
{
    if fs.len() == 0 {
        Seq::empty()
    } else {
        let prev = field_values(fs.drop_last());
        match field_value(fs.last()) {
            Some(v) => prev.push(v),
            None => prev,
        }
    }
}

/// The numbers of a size argument, given by its characters.
pub open spec fn size_values_spec(raw: Seq<char>) -> Seq<u32> {
    field_values(split_fields(encode_utf8(raw)))
}

/// What is known of the field being read.
struct FieldState {
    len: usize,
    digits: usize,
    all_digits: bool,
    too_big: bool,
    value: u64,
}

spec fn field_state_ok(s: FieldState, f: Seq<u8>) -> bool {
    let ds = field_digits(f);
    &&& s.len == f.len()
    &&& s.digits == ds.len()
    &&& s.all_digits == (forall|k: int| 0 <= k < ds.len() ==> is_digit(#[trigger] ds[k]))
    &&& s.all_digits ==> (s.too_big == (digits_value(ds) > u32::MAX))
    &&& s.all_digits && !s.too_big ==> s.value == digits_value(ds)
}

proof fn lemma_digits_value_grows(ds: Seq<u8>, b: u8)
    requires
        is_digit(b),
    ensures
        digits_value(ds.push(b)) == digits_value(ds) * 10 + (b - 0x30) as nat,
        digits_value(ds.push(b)) >= digits_value(ds),
{
    assert(ds.push(b).drop_last() =~= ds);
}

/// The value of the field, if it reads as a number.
fn finish_field(s: &FieldState, Ghost(f): Ghost<Seq<u8>>) -> (r: Option<u32>)
    requires
        field_state_ok(*s, f),
    ensures
        r == field_value(f),
{
    if s.all_digits && !s.too_big && s.digits > 0 {
        Some(s.value as u32)
    } else {
        None
    }
}

/// The numbers of a size argument such as `800x600`: the fields between
/// `x` separators that read as `u32`, in order.
pub fn size_values(raw: &str) -> (r: Vec<u32>)
    ensures
        r@ == size_values_spec(raw@),
{
    let bytes = raw.as_bytes();
    let mut values: Vec<u32> = Vec::new();
    let mut st = FieldState { len: 0, digits: 0, all_digits: true, too_big: false, value: 0 };
    let mut i: usize = 0;
    while i < bytes.len()
        invariant
            bytes@ == raw.spec_bytes(),
            i <= bytes@.len(),
            st.len <= i,
            st.digits <= st.len,
            field_state_ok(st, split_fields(bytes@.take(i as int)).last()),
            values@ == field_values(split_fields(bytes@.take(i as int)).drop_last()),
            split_fields(bytes@.take(i as int)).len() > 0,
        decreases bytes@.len() - i,
    {
        let b = bytes[i];
        let ghost pre = bytes@.take(i as int);
        let ghost fs = split_fields(pre);
        let ghost cur = fs.last();
        proof {
            assert(bytes@.take(i as int + 1).drop_last() =~= pre);
            assert(bytes@.take(i as int + 1).last() == b);
        }
        if b == SIZE_SEPARATOR {
            let v = finish_field(&st, Ghost(cur));
            match v {
                Some(v) => values.push(v),
                None => {},
            }
            st = FieldState { len: 0, digits: 0, all_digits: true, too_big: false, value: 0 };
            proof {
                let nfs = split_fields(bytes@.take(i as int + 1));
                assert(nfs == fs.push(Seq::empty()));
                assert(nfs.drop_last() =~= fs);
                assert(field_digits(Seq::<u8>::empty()) =~= Seq::<u8>::empty());
            }
        } else {
            let ghost ncur = cur.push(b);
            proof {
                let nfs = split_fields(bytes@.take(i as int + 1));
                assert(nfs == fs.update(fs.len() - 1, ncur));
                assert(nfs.drop_last() =~= fs.drop_last());
                assert(nfs.last() == ncur);
            }
            if st.len == 0 && b == 0x2b {
                proof {
                    assert(field_digits(ncur) =~= Seq::<u8>::empty());
                }
                st.len = 1;
            } else {
                proof {
                    assert(field_digits(ncur) =~= field_digits(cur).push(b));
                }
                let digit = 0x30 <= b && b <= 0x39;
                if !digit {
                    st.all_digits = false;
                    proof {
                        let nds = field_digits(ncur);
                        assert(nds[nds.len() - 1] == b);
                    }
                } else if st.all_digits {
                    proof {
                        lemma_digits_value_grows(field_digits(cur), b);
                        let nds = field_digits(ncur);
                        assert forall|k: int| 0 <= k < nds.len() implies is_digit(#[trigger] nds[k]) by {
                            if k < nds.len() - 1 {
                                assert(nds[k] == field_digits(cur)[k]);
                            }
                        }
                    }
                    if !st.too_big {
                        let nv = st.value * 10 + (b - 0x30) as u64;
                        if nv > 0xffff_ffff {
                            st.too_big = true;
                        } else {
                            st.value = nv;
                        }
                    }
                } else {
                    proof {
                        let nds = field_digits(ncur);
                        let ds = field_digits(cur);
                        let k0 = choose|k: int| 0 <= k < ds.len() && !is_digit(#[trigger] ds[k]);
                        assert(nds[k0] == ds[k0]);
                    }
                }
                st.len = st.len + 1;
                st.digits = st.digits + 1;
            }
        }
        i = i + 1;
    }
    let ghost fs = split_fields(bytes@.take(i as int));
    let v = finish_field(&st, Ghost(fs.last()));
    match v {
        Some(v) => values.push(v),
        None => {},
    }
    proof {
        assert(bytes@.take(i as int) =~= raw.spec_bytes());
    }
    values
}

/// The width and height of a size argument: its first two numbers.
pub fn parse_size(raw_size: &str) -> (r: (u32, u32))
    requires
        size_values_spec(raw_size@).len() >= 2,
    ensures
        r.0 == size_values_spec(raw_size@)[0],
        r.1 == size_values_spec(raw_size@)[1],
{
    let values = size_values(raw_size);
    (values[0], values[1])
}

/// The action that the arguments ask for: rendering once where the
/// `render` subcommand came with its `once` flag, the browser otherwise.
pub fn get_action(render: Option<RenderArgs>) -> (r: Action)
    requires
        render matches Some(a) ==> size_values_spec(a.size@).len() >= 2,
    ensures
        match render {
            Some(a) => if a.once {
                r matches Action::RenderOnce(p) && p.html_path@ == a.html@ && p.output_path@
                    == a.output@ && p.viewport_size.0 == size_values_spec(a.size@)[0]
                    && p.viewport_size.1 == size_values_spec(a.size@)[1]
            } else {
                r is StartMain
            },
            None => r is StartMain,
        },
{
    match render {
        Some(a) => {
            let viewport_size = parse_size(a.size.as_str());
            if a.once {
                Action::RenderOnce(
                    RenderOnceParams { html_path: a.html, output_path: a.output, viewport_size },
                )
            } else {
                Action::StartMain
            }
        },
        None => Action::StartMain,
    }
}

} // verus!
