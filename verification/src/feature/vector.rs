//! A fixed-width packed row of feature values, one slot per feature.

use vstd::prelude::*;
use crate::bytes::{le_bytes, le_value, radix, read_uint, write_uint};
use crate::bytes::{lemma_le_value_bound, lemma_le_value_of_bytes};
use crate::feature::value::{lemma_raw_injective, FeatureValue};

verus! {

/// Why a feature vector was refused or left unchanged.
#[derive(Clone, Copy, Debug, PartialEq, Eq, Structural)]
pub enum FeatureError {
    /// The buffer is not exactly one value wide per feature.
    LengthMismatch,
    /// The position is not below the number of features.
    OutOfBounds,
    /// The value is the one that marks a slot as empty.
    UnsetValue,
}

/// The value whose bytes fill slot `i` of `bytes`.
pub open spec fn stored_value<T: FeatureValue>(bytes: Seq<u8>, i: int) -> T {
    T::from_raw(le_value(bytes.subrange(i * T::width(), (i + 1) * T::width())))
}

/// What slot `i` of `bytes` holds: nothing where the stored value is the
/// marker `unset`, the stored value otherwise.
pub open spec fn slot_value<T: FeatureValue>(bytes: Seq<u8>, unset: Option<T>, i: int) -> Option<
    T,
> {
    let v = stored_value::<T>(bytes, i);
    if unset == Some(v) {
        None
    } else {
        Some(v)
    }
}

/// The features that `bytes` hold, read as `n` slots.
pub open spec fn slots<T: FeatureValue>(bytes: Seq<u8>, unset: Option<T>, n: nat) -> Seq<
    Option<T>,
> {
    Seq::new(n, |i: int| slot_value::<T>(bytes, unset, i))
}

/// Slot `i` lies inside a buffer of `n` slots.
pub proof fn lemma_slot_bounds(i: int, n: int, w: int)
    requires
        0 <= i < n,
        0 < w,
    ensures
        0 <= i * w,
        (i + 1) * w == i * w + w,
        (i + 1) * w <= n * w,
{
    assert(0 <= i * w) by (nonlinear_arith)
        requires
            0 <= i,
            0 < w,
    ;
    assert((i + 1) * w == i * w + w) by (nonlinear_arith);
    assert((i + 1) * w <= n * w) by (nonlinear_arith)
        requires
            i + 1 <= n,
            0 < w,
    ;
}

/// Two different slots do not overlap.
pub proof fn lemma_slots_apart(i: int, j: int, w: int)
    requires
        0 <= i,
        0 <= j,
        i != j,
        0 < w,
    ensures
        (i + 1) * w <= j * w || (j + 1) * w <= i * w,
{
    if i < j {
        assert((i + 1) * w <= j * w) by (nonlinear_arith)
            requires
                i + 1 <= j,
                0 < w,
        ;
    } else {
        assert((j + 1) * w <= i * w) by (nonlinear_arith)
            requires
                j + 1 <= i,
                0 < w,
        ;
    }
}

/// Reads slot `i` of a buffer that holds at least `i + 1` slots.
pub fn read_slot<T: FeatureValue>(data: &[u8], unset: Option<T>, i: usize) -> (value: Option<T>)
    requires
        (i + 1) * T::width() <= data@.len(),
    ensures
        value == slot_value::<T>(data@, unset, i as int),
{
    let w = T::size();
    let len = data.len();
    proof {
        T::lemma_layout(T::from_raw(0));
        lemma_slot_bounds(i as int, i + 1, w as int);
        lemma_le_value_bound(data@.subrange(i * w, i * w + w));
        assert(i * w + w <= data@.len());
    }
    let raw = read_uint(data, i * w, w);
    let v = T::of_raw(raw);
    match unset {
        Some(u) => {
            proof {
                T::lemma_from_raw(raw as nat);
                if u.raw() == v.raw() {
                    lemma_raw_injective(u, v);
                }
            }
            if u.to_raw() == raw {
                None
            } else {
                Some(v)
            }
        },
        None => Some(v),
    }
}

/// A row of `num_features` values of type `T` packed into bytes, each slot
/// little-endian. Where a marker value is given, a slot that stores it is
/// empty.
pub struct FeatureVector<T: FeatureValue> {
    buf: Vec<u8>,
    num_features: usize,
    unset: Option<T>,
}

impl<T: FeatureValue> FeatureVector<T> {
    /// The buffer is exactly one value wide per feature.
    #[verifier::type_invariant]
    spec fn well_formed(self) -> bool {
        self.buf@.len() == self.num_features * T::width()
    }

    /// The packed bytes.
    pub closed spec fn bytes(self) -> Seq<u8> {
        self.buf@
    }

    /// How many slots the vector has.
    pub closed spec fn count(self) -> nat {
        self.num_features as nat
    }

    /// The value that marks a slot as empty, if there is one.
    pub closed spec fn marker(self) -> Option<T> {
        self.unset
    }

    /// What each slot holds.
    pub open spec fn values(self) -> Seq<Option<T>> {
        slots::<T>(self.bytes(), self.marker(), self.count())
    }

    /// Wraps `buf` as a vector of `num_features` slots, refusing a buffer of
    /// any other length than `num_features` values.
    pub fn parse(buf: Vec<u8>, num_features: usize, unset: Option<T>) -> (parsed: Result<
        Self,
        FeatureError,
    >)
        ensures
            match parsed {
                Ok(fv) => {
                    &&& buf@.len() == num_features * T::width()
                    &&& fv.bytes() == buf@
                    &&& fv.count() == num_features
                    &&& fv.marker() == unset
                },
                Err(e) => e == FeatureError::LengthMismatch && buf@.len() != num_features
                    * T::width(),
            },
    {
        let w = T::size();
        proof {
            T::lemma_layout(T::from_raw(0));
        }
        let len = buf.len();
        if len % w == 0 && len / w == num_features {
            assert(len == num_features * w) by (nonlinear_arith)
                requires
                    len % w == 0,
                    len / w == num_features,
                    w > 0,
            ;
            Ok(FeatureVector { buf, num_features, unset })
        } else {
            assert(len != num_features * w) by (nonlinear_arith)
                requires
                    !(len % w == 0 && len / w == num_features),
                    w > 0,
            ;
            Err(FeatureError::LengthMismatch)
        }
    }

    /// A vector of `num_features` slots that are all empty: every slot
    /// stores the marker `unset`.
    pub fn unset(num_features: usize, unset: T) -> (fv: Self)
        requires
            num_features * T::width() <= usize::MAX,
        ensures
            fv.count() == num_features,
            fv.marker() == Some(unset),
            fv.values() == Seq::new(num_features as nat, |i: int| None::<T>),
    {
        let w = T::size();
        let raw = unset.to_raw();
        proof {
            T::lemma_layout(unset);
            lemma_le_value_of_bytes(unset.raw(), T::width());
        }
        let mut buf: Vec<u8> = Vec::new();
        let mut i: usize = 0;
        while i < num_features
            invariant
                i <= num_features,
                w == T::width(),
                1 <= w <= 8,
                raw == unset.raw(),
                (raw as nat) < radix(T::width()),
                le_value(le_bytes(unset.raw(), T::width())) == unset.raw(),
                T::from_raw(unset.raw()) == unset,
                num_features * T::width() <= usize::MAX,
                buf@.len() == i * w,
                forall|j: int| 0 <= j < i ==> stored_value::<T>(buf@, j) == unset,
            decreases num_features - i,
        {
            let ghost before = buf@;
            proof {
                lemma_slot_bounds(i as int, num_features as int, w as int);
            }
            let mut k: usize = 0;
            while k < w
                invariant
                    k <= w,
                    buf@.len() == before.len() + k,
                    buf@.subrange(0, before.len() as int) == before,
                    before.len() + w <= usize::MAX,
                decreases w - k,
            {
                let ghost grown = buf@;
                buf.push(0);
                k += 1;
                assert(buf@.subrange(0, before.len() as int) =~= grown.subrange(
                    0,
                    before.len() as int,
                ));
            }
            let ghost padded = buf@;
            write_uint(&mut buf, i * w, raw, w);
            proof {
                assert forall|j: int| 0 <= j < i + 1 implies stored_value::<T>(buf@, j)
                    == unset by {
                    lemma_slot_bounds(j, i + 1, w as int);
                    if j < i {
                        lemma_slot_bounds(j, i as int, w as int);
                        assert(buf@.subrange(j * w, (j + 1) * w) =~= before.subrange(
                            j * w,
                            (j + 1) * w,
                        )) by {
                            assert forall|x: int| j * w <= x < (j + 1) * w implies buf@[x]
                                == before[x] by {
                                assert(padded.subrange(0, before.len() as int)[x] == before[x]);
                            }
                        }
                        assert(stored_value::<T>(before, j) == unset);
                    } else {
                        assert(buf@.subrange(j * w, (j + 1) * w) == le_bytes(
                            unset.raw(),
                            T::width(),
                        ));
                    }
                }
            }
            i += 1;
        }
        let fv = FeatureVector { buf, num_features, unset: Some(unset) };
        assert(fv.values() =~= Seq::new(num_features as nat, |i: int| None::<T>));
        fv
    }

    /// How many slots the vector has.
    pub fn num_features(&self) -> (n: usize)
        ensures
            n == self.count(),
    {
        self.num_features
    }

    /// The feature at position `i`: `None` where `i` is past the last slot or
    /// the slot is empty.
    pub fn get(&self, i: usize) -> (value: Option<T>)
        ensures
            value == (if i < self.count() {
                self.values()[i as int]
            } else {
                None
            }),
    {
        proof {
            use_type_invariant(self);
        }
        if i < self.num_features {
            proof {
                T::lemma_layout(T::from_raw(0));
                lemma_slot_bounds(i as int, self.num_features as int, T::width() as int);
            }
            read_slot(self.buf.as_slice(), self.unset, i)
        } else {
            None
        }
    }

    /// Stores `v` at position `i`. Refuses a position past the last slot, and
    /// the marker value, which would read back as an empty slot.
    pub fn set(&mut self, i: usize, v: T) -> (stored: Result<(), FeatureError>)
        ensures
            final(self).count() == old(self).count(),
            final(self).marker() == old(self).marker(),
            final(self).bytes().len() == old(self).bytes().len(),
            match stored {
                Ok(_) => {
                    &&& i < old(self).count()
                    &&& old(self).marker() != Some(v)
                    &&& slot_value::<T>(final(self).bytes(), final(self).marker(), i as int)
                        == Some(v)
                    &&& final(self).values() == old(self).values().update(i as int, Some(v))
                    &&& final(self).bytes() == old(self).bytes().subrange(0, i * T::width())
                        + le_bytes(v.raw(), T::width()) + old(self).bytes().subrange(
                        (i + 1) * T::width(),
                        old(self).bytes().len() as int,
                    )
                },
                Err(e) => {
                    &&& final(self).bytes() == old(self).bytes()
                    &&& e == (if i >= old(self).count() {
                        FeatureError::OutOfBounds
                    } else {
                        FeatureError::UnsetValue
                    })
                    &&& i >= old(self).count() || old(self).marker() == Some(v)
                },
            },
    {
        proof {
            use_type_invariant(&*self);
            T::lemma_layout(v);
        }
        if i >= self.num_features {
            return Err(FeatureError::OutOfBounds);
        }
        let raw = v.to_raw();
        match self.unset {
            Some(u) => {
                proof {
                    if u.raw() == v.raw() {
                        lemma_raw_injective(u, v);
                    }
                }
                if u.to_raw() == raw {
                    return Err(FeatureError::UnsetValue);
                }
            },
            None => {},
        }
        let w = T::size();
        let len = self.buf.len();
        let ghost before = self.buf@;
        proof {
            lemma_slot_bounds(i as int, self.num_features as int, w as int);
            assert(i * w + w <= self.buf@.len());
        }
        write_uint(&mut self.buf, i * w, raw, w);
        proof {
            let after = self.buf@;
            lemma_le_value_of_bytes(v.raw(), T::width());
            assert(after.subrange(i * w, (i + 1) * w) == le_bytes(v.raw(), T::width()));
            assert(stored_value::<T>(after, i as int) == v);
            assert forall|j: int| 0 <= j < self.num_features && j != i implies stored_value::<T>(
                after,
                j,
            ) == stored_value::<T>(before, j) by {
                lemma_slot_bounds(j, self.num_features as int, w as int);
                lemma_slots_apart(i as int, j, w as int);
                assert(after.subrange(j * w, (j + 1) * w) =~= before.subrange(j * w, (j + 1) * w));
            }
            assert(self.values() =~= old(self).values().update(i as int, Some(v)));
            assert(after =~= before.subrange(0, i * w) + le_bytes(v.raw(), T::width())
                + before.subrange((i + 1) * w, before.len() as int)) by {
                let whole = before.subrange(0, i * w) + le_bytes(v.raw(), T::width())
                    + before.subrange((i + 1) * w, before.len() as int);
                crate::bytes::lemma_le_bytes_len(v.raw(), T::width());
                assert(whole.len() == after.len());
                assert forall|k: int| 0 <= k < after.len() implies after[k] == whole[k] by {
                    if i * w <= k < (i + 1) * w {
                        assert(after[k] == after.subrange(i * w, (i + 1) * w)[k - i * w]);
                    }
                }
            }
        }
        Ok(())
    }

    /// The packed bytes, as they are persisted.
    pub fn as_bytes(&self) -> (bytes: &[u8])
        ensures
            bytes@ == self.bytes(),
    {
        self.buf.as_slice()
    }
}

/// After a value is stored at a position, reading the position gives the
/// value, and every other position reads as before: one that was never set
/// stays empty.
pub proof fn lemma_set_then_get<T: FeatureValue>(before: Seq<Option<T>>, i: int, v: T)
    requires
        0 <= i < before.len(),
    ensures
        before.update(i, Some(v))[i] == Some(v),
        forall|j: int| 0 <= j < before.len() && j != i ==> before.update(i, Some(v))[j] == before[j],
        forall|j: int|
            0 <= j < before.len() && j != i && before[j] is None ==> before.update(i, Some(v))[j] is None,
{
}

} // verus!
