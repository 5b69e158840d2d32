[package]
name = "muteapp"
version = "0.1.0"
edition = "2021"
publish = false

[dependencies]
anyhow = "1"
ctrlc = "3"
global-hotkey = "*"
resvg = "*"
tray-icon = "*"
windows = { version = "*", features = ["Win32_Foundation", "Win32_Graphics_Gdi", "Win32_Media_Audio", "Win32_Security", "Win32_System_Com", "Win32_System_Console", "Win32_System_Diagnostics_Debug", "Win32_System_LibraryLoader", "Win32_System_Threading", "Win32_UI_HiDpi", "Win32_UI_WindowsAndMessaging"] }
