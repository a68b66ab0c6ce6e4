pub mod quantization;
