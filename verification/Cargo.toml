[package]
name = "sms-notifier"
version = "0.1.0"
edition = "2021"
publish = false

[dependencies]
arboard = { version = "3", default-features = false }
base64 = "0.22"
core-graphics = "*"
encoding = "0.2"
libc = "0.2"
mac-notification-sys = "*"
native-tls = "0.2"
objc2 = "*"
objc2-foundation = "*"
socket2 = { version = "0.5", features = ["all"] }
tauri-winrt-notification = "*"
tracing = "0.1"
tray-icon = "*"
tungstenite = "*"
windows = { version = "0.61", features = ["Win32_Storage_EnhancedStorage", "Win32_System_Com", "Win32_System_Com_StructuredStorage", "Win32_UI_Shell", "Win32_UI_Shell_PropertiesSystem"] }
windows-sys = { version = "0.61", features = ["Win32_Foundation", "Win32_System_Com", "Win32_System_Console", "Win32_System_SystemInformation", "Win32_System_Threading", "Win32_UI_Input_KeyboardAndMouse", "Win32_UI_WindowsAndMessaging"] }
