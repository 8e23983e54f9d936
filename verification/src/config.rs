//! Training and inference settings. Loading and saving the settings as a
//! file is the caller's concern; the library only fixes the shape of the
//! record and its default values.

use vstd::prelude::*;
use vstd::string::StringExecFns;

verus! {

/// Settings shared by training and inference: how many epochs to train,
/// where the dataset and the model weights live, and the model's layer
/// sizes (input dimension, hidden width, number of labels).
pub struct TrainerConfig {
    pub epoch: usize,
    pub data_dir: String,
    pub out_path: String,
    pub image_dim: i64,
    pub hidden: i64,
    pub labels: i64,
}

impl Default for TrainerConfig {
    /// The stock settings: twenty epochs, the conventional dataset and
    /// model paths, and a 784-input, 128-hidden, 10-label model.
    fn default() -> (c: Self)
        ensures
            c.epoch == 20,
            c.data_dir@ == "data/"@,
            c.out_path@ == "models/mnist.ot"@,
            c.image_dim == 784,
            c.hidden == 128,
            c.labels == 10,
    {
        TrainerConfig {
            epoch: 20,
            data_dir: String::from_str("data/"),
            out_path: String::from_str("models/mnist.ot"),
            image_dim: 784,
            hidden: 128,
            labels: 10,
        }
    }
}

} // verus!
