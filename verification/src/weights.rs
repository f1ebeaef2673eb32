//! The tensors the 16 kHz Silero VAD model is built from, looked up by name in
//! a checked safetensors index.
use vstd::prelude::*;
use crate::error::{SileroError, make_error};
use crate::safetensors::{SafeTensors, TensorView, msg_not_found};

verus! {

/// Number of weight tensors of the model.
pub const NUM_WEIGHTS: usize = 15;

/// The names of the model's tensors, in the order the model uses them:
/// STFT basis, four conv layers (weight, bias), the LSTM cell (input and hidden
/// weights and biases), and the final conv (weight, bias).
pub open spec fn weight_names() -> Seq<Seq<char>> {
    seq![
        "stft_conv.weight"@,
        "conv1.weight"@,
        "conv1.bias"@,
        "conv2.weight"@,
        "conv2.bias"@,
        "conv3.weight"@,
        "conv3.bias"@,
        "conv4.weight"@,
        "conv4.bias"@,
        "lstm_cell.weight_ih"@,
        "lstm_cell.weight_hh"@,
        "lstm_cell.bias_ih"@,
        "lstm_cell.bias_hh"@,
        "final_conv.weight"@,
        "final_conv.bias"@,
    ]
}

/// The names of the model's tensors (see [`weight_names`]).
pub fn weight_name_list() -> (v: Vec<&'static str>)
    ensures
        v.len() == NUM_WEIGHTS,
        forall|i: int| 0 <= i < NUM_WEIGHTS ==> (#[trigger] v[i])@ == weight_names()[i],
{
    vec![
        "stft_conv.weight",
        "conv1.weight",
        "conv1.bias",
        "conv2.weight",
        "conv2.bias",
        "conv3.weight",
        "conv3.bias",
        "conv4.weight",
        "conv4.bias",
        "lstm_cell.weight_ih",
        "lstm_cell.weight_hh",
        "lstm_cell.bias_ih",
        "lstm_cell.bias_hh",
        "final_conv.weight",
        "final_conv.bias",
    ]
}

/// The model's tensors, in the order of [`weight_names`], or an error naming
/// the first one that is missing.
pub fn model_weights(st: &SafeTensors) -> (r: Result<Vec<TensorView>, SileroError>)
    ensures
        r is Ok <==> forall|i: int| 0 <= i < NUM_WEIGHTS ==> st@.contains_key(#[trigger] weight_names()[i]),
        r matches Ok(v) ==> v.len() == NUM_WEIGHTS && forall|i: int|
            0 <= i < NUM_WEIGHTS ==> (#[trigger] v[i])@ == st@[weight_names()[i]],
        r matches Err(e) ==> exists|i: int|
            0 <= i < NUM_WEIGHTS && !st@.contains_key(#[trigger] weight_names()[i]) && (forall|j: int|
                0 <= j < i ==> st@.contains_key(#[trigger] weight_names()[j])) && e.text()
                == msg_not_found(weight_names()[i]),
{
    let names = weight_name_list();
    let mut out: Vec<TensorView> = Vec::new();
    let mut i: usize = 0;
    while i < NUM_WEIGHTS
        invariant
            0 <= i <= NUM_WEIGHTS,
            names.len() == NUM_WEIGHTS,
            forall|k: int| 0 <= k < NUM_WEIGHTS ==> (#[trigger] names[k])@ == weight_names()[k],
            out.len() == i,
            forall|k: int| 0 <= k < i ==> st@.contains_key(#[trigger] weight_names()[k]),
            forall|k: int| 0 <= k < i ==> (#[trigger] out[k])@ == st@[weight_names()[k]],
        decreases NUM_WEIGHTS - i,
    {
        match st.get(names[i]) {
            Ok(v) => {
                out.push(v);
            },
            Err(e) => {
                proof {
                    assert(names[i as int]@ == weight_names()[i as int]);
                }
                return Err(e);
            },
        }
        i = i + 1;
    }
    Ok(out)
}

pub open spec fn msg_parse_failed(inner: Seq<char>) -> Seq<char> {
    "Failed to parse safetensors: "@ + inner
}

/// The error reported when the weight file cannot be parsed.
pub fn parse_failed(inner: SileroError) -> (e: SileroError)
    ensures
        e.text() == msg_parse_failed(inner.text()),
{
    let mut m = String::from_str("Failed to parse safetensors: ");
    let t = inner.message();
    m.append(t.as_str());
    make_error(m)
}

} // verus!
