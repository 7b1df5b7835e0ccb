[package]
name = "r_d_inclita_sofware"
version = "0.1.0"
edition = "2021"
publish = false

[dependencies]
heapless = "=0.8.0"
serde = { version = "=1.0.229", default-features = false, features = ["derive"] }
postcard = "=1.1.3"
embedded-sdmmc = "=0.10.0"
defmt = "=1.2.0"
defmt-rtt = "=1.3.1"
panic-probe = "=1.0.0"
embassy-executor = { version = "=0.9.1", features = ["arch-std", "executor-thread"] }
embassy-stm32 = { version = "=0.6.0", features = ["stm32f413zh", "time-driver-any"] }
embassy-sync = "=0.8.0"
embassy-time = "=0.5.1"
embedded-hal-bus = "=0.3.0"
sx127x_lora = "=0.3.1"
bno055 = "=0.4.0"
ms5611-rs = "*"
lh-adxl345 = "*"
iis2mdc = "*"
