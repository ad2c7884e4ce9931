[package]
name = "heater"
version = "0.1.0"
edition = "2021"
publish = false

[dependencies]
cortex-m = "*"
cortex-m-rt = "*"
embassy-futures = "*"
embassy-stm32 = { version = "*", features = ["stm32c011f4", "time-driver-any"] }
embassy-time = "*"
micromath = "*"
ssd1306 = "*"
