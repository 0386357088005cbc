//! The operator capability: a polymorphic, stateless unit of computation.

use vstd::prelude::*;

use crate::buffer::Buffer;

verus! {

/// The byte contents of each buffer in a sequence of buffers.
pub open spec fn buffer_views(bufs: Seq<Buffer>) -> Seq<Seq<u8>> {
    bufs.map(|_i: int, b: Buffer| b@)
}

/// The byte length of each value in a sequence of byte sequences.
pub open spec fn byte_lens(vals: Seq<Seq<u8>>) -> Seq<usize> {
    vals.map(|_i: int, v: Seq<u8>| v.len() as usize)
}

/// A unit of computation with fixed arity.  An operator reads a fixed number
/// of input buffers and fully populates a fixed number of output buffers; it
/// carries no mutable state of its own, so its behaviour is a pure function
/// of the input contents, described by [`Operator::spec_execute`].  Its size
/// inference, [`Operator::spec_output_sizes`], depends on the input sizes
/// alone and must agree with the sizes `execute` actually produces.
pub trait Operator: Sized {
    /// Declared number of input buffers.
    spec fn spec_input_count(&self) -> nat;

    /// Declared number of output buffers.
    spec fn spec_output_count(&self) -> nat;

    /// Pure size inference: the output byte sizes, from the input byte sizes
    /// alone.
    spec fn spec_output_sizes(&self, input_sizes: Seq<usize>) -> Seq<usize>;

    /// The computation itself: the output contents, from the input contents
    /// alone.
    spec fn spec_execute(&self, inputs: Seq<Seq<u8>>) -> Seq<Seq<u8>>;

    /// The computation always yields exactly the declared number of
    /// outputs.
    proof fn execute_arity(&self, inputs: Seq<Seq<u8>>)
        requires
            inputs.len() == self.spec_input_count(),
        ensures
            self.spec_execute(inputs).len() == self.spec_output_count(),
    ;

    /// The size inference is consistent with what the computation actually
    /// produces: the output sizes it predicts from the input sizes are the
    /// byte lengths of the computed outputs.
    proof fn sizes_consistent(&self, inputs: Seq<Seq<u8>>)
        requires
            inputs.len() == self.spec_input_count(),
        ensures
            byte_lens(self.spec_execute(inputs)) == self.spec_output_sizes(byte_lens(inputs)),
    ;

    /// Returns the expected number of input buffers.
    fn input_count(&self) -> (n: usize)
        ensures
            n == self.spec_input_count(),
    ;

    /// Returns the number of output buffers the operator will produce.
    fn output_count(&self) -> (n: usize)
        ensures
            n == self.spec_output_count(),
    ;

    /// Calculates the sizes of the output buffers from the sizes of the
    /// input buffers.
    fn compute_output_buffer_sizes(&self, input_buffer_sizes: &[usize]) -> (sizes: Vec<usize>)
        requires
            input_buffer_sizes@.len() == self.spec_input_count(),
        ensures
            sizes@ == self.spec_output_sizes(input_buffer_sizes@),
            sizes@.len() == self.spec_output_count(),
    ;

    /// Executes the operator: reads the input buffers and fully populates
    /// the output buffers.  The results are exactly `spec_execute` of the
    /// input contents, and their sizes agree with `spec_output_sizes` of the
    /// input sizes.
    fn execute(&self, input_buffers: &Vec<Buffer>, output_buffers: &mut Vec<Buffer>)
        requires
            input_buffers@.len() == self.spec_input_count(),
            old(output_buffers)@.len() == self.spec_output_count(),
        ensures
            final(output_buffers)@.len() == self.spec_output_count(),
            buffer_views(final(output_buffers)@) == self.spec_execute(buffer_views(input_buffers@)),
            byte_lens(self.spec_execute(buffer_views(input_buffers@)))
                == self.spec_output_sizes(byte_lens(buffer_views(input_buffers@))),
    ;
}

/// Copies each input buffer to the output buffer at the same position.
/// Size-preserving, with `arity` inputs and `arity` outputs.
pub struct CopyOperator {
    pub arity: usize,
}

impl Operator for CopyOperator {
    open spec fn spec_input_count(&self) -> nat {
        self.arity as nat
    }

    open spec fn spec_output_count(&self) -> nat {
        self.arity as nat
    }

    open spec fn spec_output_sizes(&self, input_sizes: Seq<usize>) -> Seq<usize> {
        input_sizes
    }

    open spec fn spec_execute(&self, inputs: Seq<Seq<u8>>) -> Seq<Seq<u8>> {
        inputs
    }

    proof fn execute_arity(&self, inputs: Seq<Seq<u8>>) {
    }

    proof fn sizes_consistent(&self, inputs: Seq<Seq<u8>>) {
        assert(byte_lens(self.spec_execute(inputs)) =~= self.spec_output_sizes(byte_lens(inputs)));
    }

    fn input_count(&self) -> usize {
        self.arity
    }

    fn output_count(&self) -> usize {
        self.arity
    }

    fn compute_output_buffer_sizes(&self, input_buffer_sizes: &[usize]) -> (sizes: Vec<usize>)
    {
        let mut sizes: Vec<usize> = Vec::new();
        let mut i: usize = 0;
        while i < input_buffer_sizes.len()
            invariant
                i <= input_buffer_sizes@.len(),
                sizes@ == input_buffer_sizes@.subrange(0, i as int),
            decreases input_buffer_sizes@.len() - i,
        {
            sizes.push(input_buffer_sizes[i]);
            i = i + 1;
            proof {
                assert(sizes@ =~= input_buffer_sizes@.subrange(0, i as int));
            }
        }
        proof {
            assert(sizes@ =~= input_buffer_sizes@);
        }
        sizes
    }

    fn execute(&self, input_buffers: &Vec<Buffer>, output_buffers: &mut Vec<Buffer>) {
        let mut outs: Vec<Buffer> = Vec::new();
        let mut i: usize = 0;
        while i < input_buffers.len()
            invariant
                i <= input_buffers@.len(),
                outs@.len() == i,
                forall|j: int| 0 <= j < i ==> outs@[j]@ == input_buffers@[j]@,
            decreases input_buffers@.len() - i,
        {
            outs.push(input_buffers[i].clone());
            i = i + 1;
        }
        *output_buffers = outs;
        proof {
            assert(buffer_views(final(output_buffers)@)
                =~= self.spec_execute(buffer_views(input_buffers@)));
            assert(byte_lens(self.spec_execute(buffer_views(input_buffers@)))
                =~= self.spec_output_sizes(byte_lens(buffer_views(input_buffers@))));
        }
    }
}

/// Fans its first input out to every output: each output buffer receives a
/// copy of input buffer 0.  With no inputs every output is empty.
pub struct BroadcastOperator {
    pub in_arity: usize,
    pub out_arity: usize,
}

impl BroadcastOperator {
    /// The value every output receives: the first input, or empty bytes when
    /// there is no input.
    pub open spec fn spec_source(inputs: Seq<Seq<u8>>) -> Seq<u8> {
        if inputs.len() == 0 {
            Seq::empty()
        } else {
            inputs[0]
        }
    }

    /// The size every output receives.
    pub open spec fn spec_source_size(input_sizes: Seq<usize>) -> usize {
        if input_sizes.len() == 0 {
            0usize
        } else {
            input_sizes[0]
        }
    }
}

impl Operator for BroadcastOperator {
    open spec fn spec_input_count(&self) -> nat {
        self.in_arity as nat
    }

    open spec fn spec_output_count(&self) -> nat {
        self.out_arity as nat
    }

    open spec fn spec_output_sizes(&self, input_sizes: Seq<usize>) -> Seq<usize> {
        Seq::new(self.out_arity as nat, |_j: int| Self::spec_source_size(input_sizes))
    }

    open spec fn spec_execute(&self, inputs: Seq<Seq<u8>>) -> Seq<Seq<u8>> {
        Seq::new(self.out_arity as nat, |_j: int| Self::spec_source(inputs))
    }

    proof fn execute_arity(&self, inputs: Seq<Seq<u8>>) {
    }

    proof fn sizes_consistent(&self, inputs: Seq<Seq<u8>>) {
        assert(byte_lens(self.spec_execute(inputs)) =~= self.spec_output_sizes(byte_lens(inputs)));
    }

    fn input_count(&self) -> usize {
        self.in_arity
    }

    fn output_count(&self) -> usize {
        self.out_arity
    }

    fn compute_output_buffer_sizes(&self, input_buffer_sizes: &[usize]) -> (sizes: Vec<usize>)
    {
        let source: usize = if input_buffer_sizes.len() == 0 {
            0
        } else {
            input_buffer_sizes[0]
        };
        let mut sizes: Vec<usize> = Vec::new();
        let mut j: usize = 0;
        while j < self.out_arity
            invariant
                j <= self.out_arity,
                source == Self::spec_source_size(input_buffer_sizes@),
                sizes@.len() == j,
                forall|k: int| 0 <= k < j ==> sizes@[k] == source,
            decreases self.out_arity - j,
        {
            sizes.push(source);
            j = j + 1;
        }
        proof {
            assert(sizes@ =~= self.spec_output_sizes(input_buffer_sizes@));
        }
        sizes
    }

    fn execute(&self, input_buffers: &Vec<Buffer>, output_buffers: &mut Vec<Buffer>) {
        let mut outs: Vec<Buffer> = Vec::new();
        let mut j: usize = 0;
        while j < self.out_arity
            invariant
                j <= self.out_arity,
                outs@.len() == j,
                forall|k: int| 0 <= k < j ==>
                    outs@[k]@ == Self::spec_source(buffer_views(input_buffers@)),
            decreases self.out_arity - j,
        {
            if input_buffers.len() == 0 {
                outs.push(Buffer::new_from_size(0));
                proof {
                    assert(outs@[j as int]@ =~= Self::spec_source(buffer_views(input_buffers@)));
                }
            } else {
                outs.push(input_buffers[0].clone());
            }
            j = j + 1;
        }
        *output_buffers = outs;
        proof {
            assert(buffer_views(final(output_buffers)@)
                =~= self.spec_execute(buffer_views(input_buffers@)));
            assert(byte_lens(self.spec_execute(buffer_views(input_buffers@)))
                =~= self.spec_output_sizes(byte_lens(buffer_views(input_buffers@))));
        }
    }
}

} // verus!
